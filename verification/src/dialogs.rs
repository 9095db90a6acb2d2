//! What the user is asked and told: confirmations (including the reclaim blast-radius
//! prompt), outcomes, progress, and how a removal is carried out.
use vstd::prelude::*;
use vstd::string::*;
use vstd::utf8::encode_utf8;

use crate::category::at_most;
use crate::clearing::ClearReport;
use crate::format::{grouped, human, human_size, thousands};
use crate::order::views;
use crate::pages::total_reclaimable;
use crate::path::{ends_with, parent, EntryPath};
use crate::reclaim::{
    consequence, impact, name_text, risk_word, sum_reclaimed, ReclaimKind, Reclaimable, ReclaimableView,
};
use crate::rows::{files_phrase, files_phrase_of, is_permanent};
use crate::scan::{display_name, label_bytes, ProgressView, ScanError, ScanProgress};
use crate::text::{decimal, decimal_text, lossy_text};

verus! {

/// The model of a [`Confirmation`].
pub struct ConfirmationView {
    pub heading: Seq<char>,
    pub body: Seq<char>,
    pub confirm: Seq<char>,
}

/// A question to be answered before anything is removed.
#[derive(Debug)]
pub struct Confirmation {
    pub heading: String,
    pub body: String,
    /// The label of the button that goes ahead.
    pub confirm: &'static str,
}

impl View for Confirmation {
    type V = ConfirmationView;

    open spec fn view(&self) -> ConfirmationView {
        ConfirmationView { heading: self.heading@, body: self.body@, confirm: self.confirm@ }
    }
}

/// How many items a batch confirmation lists.
pub const BATCH_LISTED: usize = 8;

/// The line for an item.
pub open spec fn bullet_of(item: ReclaimableView) -> Seq<char> {
    "• "@ + item.label + " — "@ + human(item.size)
}

/// The lines for some items.
pub open spec fn bullets_of(items: Seq<ReclaimableView>) -> Seq<char>
    decreases items.len(),
{
    if items.len() == 0 {
        Seq::empty()
    } else if items.len() == 1 {
        bullet_of(items[0])
    } else {
        bullets_of(items.drop_last()) + "\n"@ + bullet_of(items.last())
    }
}

/// The first items, and how many more there are.
pub open spec fn listing_of(items: Seq<ReclaimableView>) -> Seq<char> {
    let lines = bullets_of(at_most(items, BATCH_LISTED as int));
    if items.len() > BATCH_LISTED {
        lines + "\n• …and "@ + decimal((items.len() - BATCH_LISTED) as nat) + " more"@
    } else {
        lines
    }
}

fn bullet(item: &Reclaimable) -> (line: String)
    ensures
        line@ == bullet_of(item@),
{
    let mut line = String::from_str("• ");
    line.append(item.label.as_str());
    line.append(" — ");
    line.append(human_size(item.size).as_str());
    line
}

fn listing(items: &[Reclaimable]) -> (text: String)
    ensures
        text@ == listing_of(views(items@)),
{
    let ghost all = views(items@);
    let ghost shown = at_most(all, BATCH_LISTED as int);
    let mut text = String::new();
    let mut i: usize = 0;
    assert(shown.take(0) =~= Seq::<ReclaimableView>::empty());
    while i < items.len() && i < BATCH_LISTED
        invariant
            i <= items@.len(),
            i <= BATCH_LISTED,
            all == views(items@),
            shown == at_most(all, BATCH_LISTED as int),
            text@ == bullets_of(shown.take(i as int)),
        decreases items@.len() - i,
    {
        proof {
            assert(shown.take(i + 1).drop_last() =~= shown.take(i as int));
            assert(shown.take(i + 1).last() == items@[i as int]@);
        }
        let line = bullet(&items[i]);
        if i > 0 {
            text.append("\n");
            text.append(line.as_str());
        } else {
            text = line;
        }
        i += 1;
    }
    assert(shown.take(i as int) =~= shown);
    if items.len() > BATCH_LISTED {
        text.append("\n• …and ");
        text.append(decimal_text((items.len() - BATCH_LISTED) as u64).as_str());
        text.append(" more");
    }
    text
}

/// The question before a batch is cleared.
pub open spec fn batch_question(items: Seq<ReclaimableView>, perm: bool) -> ConfirmationView {
    ConfirmationView {
        heading: "Clear "@ + decimal(items.len()) + " selected item"@ + (if items.len() == 1 {
            ""@
        } else {
            "s"@
        }) + "?"@,
        body: "Frees "@ + human(sum_reclaimed(items) as u64) + " in total.\n\n"@ + listing_of(items) + "\n\n"@ + if perm {
            "Permanently deletes the selected items now — this cannot be undone."@
        } else {
            "Selected items move to Trash (reversible); the Trash itself is emptied for good."@
        },
        confirm: if perm {
            "Delete All"@
        } else {
            "Move All to Trash"@
        },
    }
}

/// Confirm clearing everything currently ticked in one reviewed action; there is
/// nothing to ask when nothing is ticked.
pub fn confirm_selected(items: &[Reclaimable], perm: bool) -> (question: Option<Confirmation>)
    requires
        sum_reclaimed(views(items@)) <= u64::MAX,
    ensures
        match question {
            Some(q) => items@.len() > 0 && q@ == batch_question(views(items@), perm),
            None => items@.len() == 0,
        },
{
    let count: usize = items.len();
    if count == 0 {
        return None;
    }
    let bytes: u64 = match total_reclaimable(items) {
        Some(bytes) => bytes,
        // The items add up, as was asked for.
        None => 0,
    };
    let mut heading = String::from_str("Clear ");
    heading.append(decimal_text(count as u64).as_str());
    heading.append(" selected item");
    heading.append(if count == 1 {
        ""
    } else {
        "s"
    });
    heading.append("?");
    let mut body = String::from_str("Frees ");
    body.append(human_size(bytes).as_str());
    body.append(" in total.\n\n");
    body.append(listing(items).as_str());
    body.append("\n\n");
    body.append(
        if perm {
            "Permanently deletes the selected items now — this cannot be undone."
        } else {
            "Selected items move to Trash (reversible); the Trash itself is emptied for good."
        },
    );
    let confirm = if perm {
        "Delete All"
    } else {
        "Move All to Trash"
    };
    Some(Confirmation { heading, body, confirm })
}

/// The question before one entry is cleared: which one, how much and how many files,
/// what happens, and whether it can be undone.
pub open spec fn clear_question(item: ReclaimableView, perm: bool) -> ConfirmationView {
    let permanent = is_permanent(item.kind, perm);
    let what = impact(item.kind, name_text(item.path));
    ConfirmationView {
        heading: if item.kind == ReclaimKind::Trash {
            "Empty the Trash?"@
        } else if permanent {
            "Permanently delete "@ + item.label + "?"@
        } else {
            "Move "@ + item.label + " to Trash?"@
        },
        body: lossy_text(item.path) + "\n\nFrees "@ + human(item.size) + " across "@ + files_phrase_of(item.file_count)
            + ".\n\nWhat happens — "@ + risk_word(what.risk) + ": "@ + what.summary + "\n\n"@ + if permanent {
            "This frees the space now and cannot be undone."@
        } else {
            "Moving to Trash is reversible; the space is freed once you empty the Trash."@
        },
        confirm: if permanent {
            "Delete"@
        } else {
            "Move to Trash"@
        },
    }
}

/// Show the blast radius for clearing an entry. `perm` requests a permanent delete;
/// the Trash spot is always permanent.
pub fn confirm_clear(item: &Reclaimable, perm: bool) -> (question: Confirmation)
    ensures
        question@ == clear_question(item@, perm),
{
    let permanent = clears_for_good(item.kind, perm);
    let heading = if item.kind == ReclaimKind::Trash {
        String::from_str("Empty the Trash?")
    } else if permanent {
        let mut text = String::from_str("Permanently delete ");
        text.append(item.label.as_str());
        text.append("?");
        text
    } else {
        let mut text = String::from_str("Move ");
        text.append(item.label.as_str());
        text.append(" to Trash?");
        text
    };
    // The blast radius: what breaks if this goes.
    let what = consequence(item);
    let mut body = item.path.to_string_lossy();
    body.append("\n\nFrees ");
    body.append(human_size(item.size).as_str());
    body.append(" across ");
    body.append(files_phrase(item.file_count).as_str());
    body.append(".\n\nWhat happens — ");
    body.append(what.risk.word());
    body.append(": ");
    body.append(what.summary.as_str());
    body.append("\n\n");
    body.append(
        if permanent {
            "This frees the space now and cannot be undone."
        } else {
            "Moving to Trash is reversible; the space is freed once you empty the Trash."
        },
    );
    let confirm = if permanent {
        "Delete"
    } else {
        "Move to Trash"
    };
    Confirmation { heading, body, confirm }
}

/// Whether clearing an entry deletes it for good: emptying the Trash is inherently
/// permanent; for the rest the mode decides.
pub fn clears_for_good(kind: ReclaimKind, perm: bool) -> (permanent: bool)
    ensures
        permanent == is_permanent(kind, perm),
{
    perm || kind == ReclaimKind::Trash
}

/// Confirm moving `path` to the Trash.
pub fn confirm_trash(path: &EntryPath) -> (question: Confirmation)
    ensures
        question@ == (ConfirmationView {
            heading: "Move to Trash?"@,
            body: "“"@ + lossy_text(label_bytes(path@)) + "” will be moved to the Trash."@,
            confirm: "Move to Trash"@,
        }),
{
    let mut body = String::from_str("“");
    body.append(display_name(path).as_str());
    body.append("” will be moved to the Trash.");
    Confirmation { heading: String::from_str("Move to Trash?"), body, confirm: "Move to Trash" }
}

/// Confirm deleting `path` **permanently**. Unlike trashing, this frees the space
/// immediately and cannot be undone.
pub fn confirm_delete(path: &EntryPath) -> (question: Confirmation)
    ensures
        question@ == (ConfirmationView {
            heading: "Delete permanently?"@,
            body: "“"@ + lossy_text(label_bytes(path@))
                + "” and everything inside it will be permanently deleted. This cannot be undone."@,
            confirm: "Delete"@,
        }),
{
    let mut body = String::from_str("“");
    body.append(display_name(path).as_str());
    body.append("” and everything inside it will be permanently deleted. This cannot be undone.");
    Confirmation { heading: String::from_str("Delete permanently?"), body, confirm: "Delete" }
}

/// What is said after a removal.
pub fn removed_message(permanent: bool) -> (message: &'static str)
    ensures
        message@ == (if permanent {
            "Deleted — space freed"@
        } else {
            "Moved to Trash"@
        }),
{
    if permanent {
        "Deleted — space freed"
    } else {
        "Moved to Trash"
    }
}

/// What is said after a batch was cleared.
pub open spec fn batch_outcome(count: nat, freed: u64, failed: nat) -> Seq<char> {
    if failed == 0 {
        "Cleared "@ + decimal(count) + " — "@ + human(freed) + " freed"@
    } else {
        "Cleared "@ + decimal((count - failed) as nat) + " — "@ + human(freed) + " freed; "@ + decimal(failed)
            + " couldn't be removed"@
    }
}

/// What is said after a batch of `count` items was cleared.
pub fn batch_message(count: usize, report: ClearReport) -> (message: String)
    requires
        report.failed <= count,
    ensures
        message@ == batch_outcome(count as nat, report.freed, report.failed as nat),
{
    let mut message = String::from_str("Cleared ");
    message.append(decimal_text((count - report.failed) as u64).as_str());
    message.append(" — ");
    message.append(human_size(report.freed).as_str());
    if report.failed == 0 {
        message.append(" freed");
    } else {
        message.append(" freed; ");
        message.append(decimal_text(report.failed as u64).as_str());
        message.append(" couldn't be removed");
    }
    message
}

/// How something is removed for good.
#[derive(Debug, Clone, Copy, PartialEq, Eq, Structural)]
pub enum Deletion {
    /// Its contents go, the directory itself stays.
    EmptyDirectory,
    /// The whole directory tree goes.
    RemoveTree,
    /// The file goes.
    RemoveFile,
}

/// How to remove `path` for good.
///
/// For the Trash spot, deleting the directory itself would remove the user's
/// Trash root; its *contents* are cleared instead. Otherwise the entry is
/// removed outright — a whole directory tree, or a single file.
pub fn delete_path(path: &EntryPath, is_dir: bool) -> (deletion: Deletion)
    ensures
        deletion == (if is_dir && ends_with(path@, encode_utf8("Trash"@)) {
            Deletion::EmptyDirectory
        } else if is_dir {
            Deletion::RemoveTree
        } else {
            Deletion::RemoveFile
        }),
{
    if is_dir && path.ends_with(&EntryPath::new("Trash")) {
        Deletion::EmptyDirectory
    } else {
        delete_entry(is_dir)
    }
}

/// How to remove an entry of a directory that is emptied.
pub fn delete_entry(is_dir: bool) -> (deletion: Deletion)
    ensures
        deletion == (if is_dir {
            Deletion::RemoveTree
        } else {
            Deletion::RemoveFile
        }),
{
    if is_dir {
        Deletion::RemoveTree
    } else {
        Deletion::RemoveFile
    }
}

/// The folder to open a terminal at: the folder itself if it is a directory,
/// otherwise its parent.
pub fn terminal_folder(path: &EntryPath, is_dir: bool) -> (folder: EntryPath)
    ensures
        folder@ == (if is_dir {
            path@
        } else {
            match parent(path@) {
                Some(up) => up,
                None => encode_utf8("/"@),
            }
        }),
{
    if is_dir {
        path.clone()
    } else {
        match path.parent() {
            Some(up) => up,
            None => EntryPath::new("/"),
        }
    }
}

/// What is said when a scan has no tree to show. A cancelled scan is a deliberate user
/// action, not a failure, and gets no alarming message.
pub fn scan_message(error: ScanError, root: &EntryPath, detail: &str) -> (message: String)
    ensures
        message@ == (if error == ScanError::Interrupted {
            "Scan cancelled"@
        } else {
            "Couldn't scan "@ + lossy_text(root@) + ": "@ + detail@
        }),
{
    if error == ScanError::Interrupted {
        String::from_str("Scan cancelled")
    } else {
        let mut message = String::from_str("Couldn't scan ");
        message.append(root.to_string_lossy().as_str());
        message.append(": ");
        message.append(detail);
        message
    }
}

/// What a scan in flight reports: the running totals, and the directory it is in once
/// it is in one.
pub open spec fn heartbeat(p: ProgressView) -> (Seq<char>, Option<Seq<char>>) {
    (
        human(p.bytes) + " · "@ + grouped(decimal(p.items as nat)) + " items"@,
        if p.current.len() == 0 {
            None
        } else {
            Some(lossy_text(p.current))
        },
    )
}

/// The live readouts of a scan in flight.
pub fn progress_lines(progress: &ScanProgress) -> (lines: (String, Option<String>))
    ensures
        lines.0@ == heartbeat(progress@).0,
        match lines.1 {
            Some(path) => heartbeat(progress@).1 == Some(path@),
            None => heartbeat(progress@).1 is None,
        },
{
    let mut totals = human_size(progress.bytes());
    totals.append(" · ");
    totals.append(thousands(progress.items()).as_str());
    totals.append(" items");
    let current = progress.current();
    if current.is_empty() {
        (totals, None)
    } else {
        (totals, Some(current.to_string_lossy()))
    }
}

/// What to scan at the start: the folder that was asked for, or the home directory.
pub fn initial_target(asked: Option<String>, home: Option<String>) -> (target: Option<EntryPath>)
    ensures
        match asked {
            Some(a) => target matches Some(t) && t@ == encode_utf8(a@),
            None => match home {
                Some(h) => target matches Some(t) && t@ == encode_utf8(h@),
                None => target is None,
            },
        },
{
    match asked {
        Some(a) => Some(EntryPath::new(a.as_str())),
        None => match home {
            Some(h) => Some(EntryPath::new(h.as_str())),
            None => None,
        },
    }
}

/// A removal that cannot be undone is never announced as one that can: the question
/// speaks of deleting exactly when the entry is deleted for good.
pub proof fn questions_tell_the_removal(item: ReclaimableView, perm: bool)
    ensures
        clear_question(item, perm).confirm == (if is_permanent(item.kind, perm) {
            "Delete"@
        } else {
            "Move to Trash"@
        }),
        item.kind == ReclaimKind::Trash ==> clear_question(item, perm).confirm == "Delete"@,
{
}

} // verus!
