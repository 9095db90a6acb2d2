//! What the user is asked and told.
use vstd::prelude::*;
use vstd::utf8::encode_utf8;

use crate::category::at_most;
use crate::clearing::ClearReport;
use crate::dialogs::{
    batch_message, bullets_of, clears_for_good, confirm_clear, confirm_delete, confirm_selected, confirm_trash,
    delete_entry, delete_path, initial_target, progress_lines, removed_message, scan_message, terminal_folder,
    Confirmation, Deletion,
};
use crate::format::{human, thousands};
use crate::order::views;
use crate::pages::total_reclaimable;
use crate::path::{file_name, EntryPath};
use crate::reclaim::{consequence, Consequence, ReclaimKind, Reclaimable, Risk};
use crate::rows::files_phrase;
use crate::scan::{ScanError, ScanProgress};
use crate::text::{decimal, lossy_text};

verus! {

/// The name that a path is shown by: its last name, or all of it where there is none.
pub open spec fn shown_name(path: Seq<u8>) -> Seq<char> {
    lossy_text(
        match file_name(path) {
            Some(name) => name,
            None => path,
        },
    )
}

/// One line per item, with its label and its size.
pub open spec fn lines_for(items: Seq<Reclaimable>) -> Seq<char> {
    items.fold_left(
        Seq::<char>::empty(),
        |text: Seq<char>, r: Reclaimable|
            if text.len() == 0 {
                "• "@ + r.label@ + " — "@ + human(r.size)
            } else {
                text + "\n"@ + ("• "@ + r.label@ + " — "@ + human(r.size))
            },
    )
}

proof fn lemma_lines(items: Seq<Reclaimable>)
    ensures
        bullets_of(views(items)) == lines_for(items),
        items.len() > 0 ==> lines_for(items).len() > 0,
    decreases items.len(),
{
    reveal_strlit("• ");
    let all = views(items);
    if items.len() > 0 {
        let front = items.drop_last();
        lemma_lines(front);
        assert(all.drop_last() =~= views(front));
        assert(all.last() == items.last()@);
        assert(items.last()@.label == items.last().label@);
        if items.len() == 1 {
            assert(all[0] == all.last());
            assert(front =~= Seq::<Reclaimable>::empty());
            assert(lines_for(front) =~= Seq::<char>::empty());
        }
    }
}

/// Before a batch is cleared the user is told how many items it holds, how much they hold
/// together, which they are, eight at most, how many more there are, and whether it can be
/// undone. There is nothing to ask where nothing is ticked.
pub proof fn a_batch_is_told_before_it_is_cleared(
    items: &[Reclaimable],
    perm: bool,
    total: Option<u64>,
    question: Option<Confirmation>,
)
    requires
        call_ensures(total_reclaimable, (items,), total),
        total is Some,
        call_ensures(confirm_selected, (items, perm), question),
    ensures
        question is Some <==> items@.len() > 0,
        question matches Some(q) ==> ({
            let n = items@.len();
            &&& q.heading@ == (if n == 1 {
                "Clear "@ + decimal(n) + " selected item"@ + ""@ + "?"@
            } else {
                "Clear "@ + decimal(n) + " selected item"@ + "s"@ + "?"@
            })
            &&& q.body@ == "Frees "@ + human(total->0) + " in total.\n\n"@ + (if n <= 8 {
                lines_for(items@)
            } else {
                lines_for(items@.take(8)) + "\n• …and "@ + decimal((n - 8) as nat) + " more"@
            }) + "\n\n"@ + (if perm {
                "Permanently deletes the selected items now — this cannot be undone."@
            } else {
                "Selected items move to Trash (reversible); the Trash itself is emptied for good."@
            })
            &&& q.confirm@ == (if perm {
                "Delete All"@
            } else {
                "Move All to Trash"@
            })
        }),
{
    let all = views(items@);
    assert(all.len() == items@.len());
    if items@.len() <= 8 {
        assert(at_most(all, 8) =~= all);
        lemma_lines(items@);
    } else {
        assert(at_most(all, 8) =~= views(items@.take(8)));
        lemma_lines(items@.take(8));
    }
}

/// Before an entry is cleared the user is told which it is, how much and how many files it
/// holds, what removing it means, and whether that can be undone: it cannot in the mode
/// that deletes, nor for the Trash.
pub proof fn an_entry_is_told_before_it_is_cleared(
    item: &Reclaimable,
    perm: bool,
    what: Consequence,
    word: &'static str,
    count: String,
    question: Confirmation,
)
    requires
        call_ensures(consequence, (item,), what),
        call_ensures(Risk::word, (what.risk,), word),
        call_ensures(files_phrase, (item.file_count,), count),
        call_ensures(confirm_clear, (item, perm), question),
    ensures
        item.kind is Trash ==> question.heading@ == "Empty the Trash?"@,
        !(item.kind is Trash) && perm ==> question.heading@ == "Permanently delete "@ + item.label@ + "?"@,
        !(item.kind is Trash) && !perm ==> question.heading@ == "Move "@ + item.label@ + " to Trash?"@,
        question.body@ == lossy_text(item.path@) + "\n\nFrees "@ + human(item.size) + " across "@ + count@
            + ".\n\nWhat happens — "@ + word@ + ": "@ + what.summary@ + "\n\n"@ + (if perm || item.kind is Trash {
            "This frees the space now and cannot be undone."@
        } else {
            "Moving to Trash is reversible; the space is freed once you empty the Trash."@
        }),
        question.confirm@ == (if perm || item.kind is Trash {
            "Delete"@
        } else {
            "Move to Trash"@
        }),
{
    assert(item@.label == item.label@);
}

/// Clearing deletes for good in the mode that does, and always for the Trash.
pub proof fn the_trash_is_always_emptied_for_good(kind: ReclaimKind, perm: bool, permanent: bool)
    requires
        call_ensures(clears_for_good, (kind, perm), permanent),
    ensures
        permanent <==> perm || kind is Trash,
{
}

/// Both questions about a path name it, and say what becomes of it.
pub proof fn questions_name_the_path(path: &EntryPath, trash: Confirmation, delete: Confirmation)
    requires
        call_ensures(confirm_trash, (path,), trash),
        call_ensures(confirm_delete, (path,), delete),
    ensures
        trash.heading@ == "Move to Trash?"@,
        trash.body@ == "“"@ + shown_name(path@) + "” will be moved to the Trash."@,
        trash.confirm@ == "Move to Trash"@,
        delete.heading@ == "Delete permanently?"@,
        delete.body@ == "“"@ + shown_name(path@)
            + "” and everything inside it will be permanently deleted. This cannot be undone."@,
        delete.confirm@ == "Delete"@,
{
}

/// What was removed for good is said to be deleted, and anything else to be in the Trash.
pub proof fn removals_are_told_as_they_were(permanent: bool, message: &'static str)
    requires
        call_ensures(removed_message, (permanent,), message),
    ensures
        permanent ==> message@ == "Deleted — space freed"@,
        !permanent ==> message@ == "Moved to Trash"@,
{
}

/// After a batch, what was removed is counted and its bytes are told; what could not be
/// removed is counted where there is any.
pub proof fn a_batch_is_told_as_it_went(count: usize, report: ClearReport, message: String)
    requires
        report.failed <= count,
        call_ensures(batch_message, (count, report), message),
    ensures
        report.failed == 0 ==> message@ == "Cleared "@ + decimal(count as nat) + " — "@ + human(report.freed) + " freed"@,
        report.failed > 0 ==> message@ == "Cleared "@ + decimal((count - report.failed) as nat) + " — "@ + human(report.freed)
            + " freed; "@ + decimal(report.failed as nat) + " couldn't be removed"@,
{
}

/// A directory called Trash is emptied and stays; any other directory goes as a tree, and
/// a file goes alone. Of what is emptied, everything goes.
pub proof fn the_trash_stays_when_it_is_emptied(
    path: &EntryPath,
    is_dir: bool,
    named: &EntryPath,
    ends: bool,
    deletion: Deletion,
    inside: Deletion,
)
    requires
        call_ensures(EntryPath::new, ("Trash",), *named),
        call_ensures(EntryPath::ends_with, (path, named), ends),
        call_ensures(delete_path, (path, is_dir), deletion),
        call_ensures(delete_entry, (is_dir,), inside),
    ensures
        deletion is EmptyDirectory <==> is_dir && ends,
        deletion is RemoveTree <==> is_dir && !ends,
        deletion is RemoveFile <==> !is_dir,
        inside is RemoveTree <==> is_dir,
        inside is RemoveFile <==> !is_dir,
{
}

/// A terminal opens at a directory, or at the folder of a file; at the root where there is
/// no folder.
pub proof fn terminals_open_at_a_folder(path: &EntryPath, is_dir: bool, up: Option<EntryPath>, folder: EntryPath)
    requires
        call_ensures(EntryPath::parent, (path,), up),
        call_ensures(terminal_folder, (path, is_dir), folder),
    ensures
        is_dir ==> folder@ == path@,
        !is_dir ==> (match up {
            Some(p) => folder@ == p@,
            None => folder@ == encode_utf8("/"@),
        }),
{
}

/// A scan that was cancelled is not told as a failure; any other tells what went wrong
/// where.
pub proof fn cancelled_scans_are_no_failures(error: ScanError, root: &EntryPath, detail: &str, message: String)
    requires
        call_ensures(scan_message, (error, root, detail), message),
    ensures
        error is Interrupted ==> message@ == "Scan cancelled"@,
        !(error is Interrupted) ==> message@ == "Couldn't scan "@ + lossy_text(root@) + ": "@ + detail@,
{
}

/// A scan in flight tells the bytes and the items so far, and the directory it is in, once
/// it is in one.
pub proof fn scans_tell_how_far_they_are(progress: &ScanProgress, items: String, lines: (String, Option<String>))
    requires
        call_ensures(thousands, (progress@.items,), items),
        call_ensures(progress_lines, (progress,), lines),
    ensures
        lines.0@ == human(progress@.bytes) + " · "@ + items@ + " items"@,
        lines.1 is Some <==> progress@.current.len() > 0,
        lines.1 matches Some(path) ==> path@ == lossy_text(progress@.current),
{
}

/// The folder that was asked for is scanned first, the home directory where none was, and
/// nothing where neither is known.
pub proof fn what_was_asked_for_is_scanned(asked: Option<String>, home: Option<String>, target: Option<EntryPath>)
    requires
        call_ensures(initial_target, (asked, home), target),
    ensures
        target is Some <==> asked is Some || home is Some,
        asked matches Some(a) ==> (target matches Some(t) && t@ == encode_utf8(a@)),
        asked is None ==> (home matches Some(h) ==> (target matches Some(t) && t@ == encode_utf8(h@))),
{
}

} // verus!
