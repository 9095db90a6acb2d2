//! What the rows and the pages show.
use vstd::prelude::*;

use crate::category::{at_most, category_totals, files_by_size, files_in, label_of, Category};
use crate::disk::{can_count, disk_usage, DiskUsage, FilesystemStat};
use crate::format::{human, thousands};
use crate::laws::places::a_drill_down_goes_step_by_step;
use crate::laws::trees::sizes_add_up;
use crate::navigate::{indices, leads, node_at};
use crate::order::{stable_sort_exists, views};
use crate::pages::{
    breadcrumb, category_page, folder_page, overview_page, reclaim_page, reclaimable_total, results_page, search_page,
    selection_bar, total_bytes, total_reclaimable, Crumb, ListPage, OverviewPage, ReclaimPage, SelectionBar,
};
use crate::path::{components, file_name, EntryPath};
use crate::query::search;
use crate::reclaim::{consequence, lemma_reclaimed_add, sum_reclaimed, Consequence, ReclaimKind, Reclaimable, Risk};
use crate::rows::{
    build_row, category_css_class, category_icon, category_row, file_location, file_menu, file_row_of, files_phrase,
    location_of, reclaim_icon, reclaim_menu, reclaim_row, risk_class, text_model, CategoryRow, FileRow, MenuItem,
    ReclaimRow, RowAction,
};
use crate::state::AppState;
use crate::text::{ascii_lower, decimal, lossy_text};
use crate::tree::{
    files, lemma_node_view, lemma_sum_permutation, node_le, node_order_is_total, sum_sizes, Node, NodeView,
};

verus! {

/// The bytes of some nodes together.
pub open spec fn bytes_together(nodes: Seq<NodeView>) -> int {
    nodes.map_values(|n: NodeView| n.size as int).fold_left(0, |sum: int, size: int| sum + size)
}

/// A row shows the node: its name, its size in words, where it lies, and whether it can be
/// opened, which directories can and files cannot.
pub proof fn rows_show_their_node(node: &Node, location: Option<String>, row: FileRow)
    requires
        call_ensures(build_row, (node, location), row),
    ensures
        row.icon@ == (if node.is_dir {
            "folder-symbolic"@
        } else {
            "text-x-generic-symbolic"@
        }),
        row.name@ == node.name@,
        row.location is Some <==> location is Some,
        row.location matches Some(text) ==> (location matches Some(given) && text@ == given@),
        row.bytes == node.size,
        row.size@ == human(node.size),
        row.path@ == node.path@,
        row.tooltip@ == lossy_text(node.path@),
        row.opens == node.is_dir,
{
    lemma_node_view(*node);
    assert(row@.location == text_model(row.location));
}

/// Each category has its icon and its class, and its row shows them, with its name and its
/// bytes.
pub proof fn categories_have_their_looks(
    category: Category,
    bytes: u64,
    icon: &'static str,
    class: &'static str,
    name: &'static str,
    row: CategoryRow,
)
    requires
        call_ensures(category_icon, (category,), icon),
        call_ensures(category_css_class, (category,), class),
        call_ensures(Category::label, (category,), name),
        call_ensures(category_row, (category, bytes), row),
    ensures
        row.category == category,
        row.icon@ == icon@,
        row.class@ == class@,
        row.name@ == name@,
        row.bytes == bytes,
        row.size@ == human(bytes),
        category is Videos ==> icon@ == "video-x-generic-symbolic"@ && class@ == "cat-videos"@,
        category is Audio ==> icon@ == "audio-x-generic-symbolic"@ && class@ == "cat-audio"@,
        category is Images ==> icon@ == "image-x-generic-symbolic"@ && class@ == "cat-images"@,
        category is Documents ==> icon@ == "x-office-document-symbolic"@ && class@ == "cat-documents"@,
        category is Archives ==> icon@ == "package-x-generic-symbolic"@ && class@ == "cat-archives"@,
        category is Code ==> icon@ == "text-x-script-symbolic"@ && class@ == "cat-code"@,
        category is Applications ==> icon@ == "application-x-executable-symbolic"@ && class@ == "cat-applications"@,
        category is Other ==> icon@ == "application-x-generic-symbolic"@ && class@ == "cat-other"@,
{
}

/// A count of files is grouped, and is singular for one file alone.
pub proof fn one_file_is_singular(n: u64, phrase: String, count: String)
    requires
        call_ensures(files_phrase, (n,), phrase),
        call_ensures(thousands, (n,), count),
    ensures
        n == 1 ==> phrase@ == count@ + " "@ + "file"@,
        n != 1 ==> phrase@ == count@ + " "@ + "files"@,
{
}

/// The menu of a file or folder, from top to bottom.
pub proof fn files_offer_five_actions(items: Vec<MenuItem>)
    requires
        call_ensures(file_menu, (), items),
    ensures
        items@.len() == 5,
        items@[0].label@ == "Open"@ && items@[0].action is Open,
        items@[1].label@ == "Open Containing Folder"@ && items@[1].action is Reveal,
        items@[2].label@ == "Open Terminal Here"@ && items@[2].action is Terminal,
        items@[3].label@ == "Copy Full Path"@ && items@[3].action is CopyPath,
        items@[4].label@ == "Move to Trash"@ && items@[4].action is Trash,
{
    let all = views(items@);
    assert(all.len() == 5);
    assert(items@[0]@ == all[0] && items@[1]@ == all[1] && items@[2]@ == all[2]);
    assert(items@[3]@ == all[3] && items@[4]@ == all[4]);
}

/// The menu of a reclaimable entry offers both ways to remove it; that of the Trash speaks
/// of emptying it.
pub proof fn entries_offer_both_removals(kind: ReclaimKind, items: Vec<MenuItem>)
    requires
        call_ensures(reclaim_menu, (kind,), items),
    ensures
        items@.len() == 5,
        items@[0].label@ == "Open"@ && items@[0].action is Open,
        items@[1].label@ == "Open Containing Folder"@ && items@[1].action is Reveal,
        items@[2].label@ == "Copy Full Path"@ && items@[2].action is CopyPath,
        items@[3].label@ == "Move to Trash"@ && items@[3].action is Trash,
        items@[4].action is Delete,
        kind is Trash ==> items@[4].label@ == "Empty Trash"@,
        !(kind is Trash) ==> items@[4].label@ == "Delete Permanently"@,
{
    let all = views(items@);
    assert(all.len() == 5);
    assert(items@[0]@ == all[0] && items@[1]@ == all[1] && items@[2]@ == all[2]);
    assert(items@[3]@ == all[3] && items@[4]@ == all[4]);
}

/// Actions go by their names.
pub proof fn actions_have_their_names(action: RowAction, name: &'static str)
    requires
        call_ensures(RowAction::name, (action,), name),
    ensures
        action is Open ==> name@ == "open"@,
        action is Reveal ==> name@ == "reveal"@,
        action is Terminal ==> name@ == "terminal"@,
        action is CopyPath ==> name@ == "copy-path"@,
        action is Trash ==> name@ == "trash"@,
        action is Delete ==> name@ == "delete"@,
{
}

/// The folder of a file, or the file where it is in none, is shown from the scanned root
/// on, behind the name of the root; one outside of it is shown whole.
pub proof fn places_are_told_from_the_root(
    root: &EntryPath,
    file: &EntryPath,
    folder: Option<EntryPath>,
    up: EntryPath,
    rest: Option<EntryPath>,
    location: String,
)
    requires
        call_ensures(EntryPath::parent, (file,), folder),
        up@ == (match folder {
            Some(p) => p@,
            None => file@,
        }),
        call_ensures(EntryPath::strip_prefix, (&up, root), rest),
        call_ensures(file_location, (root, file), location),
    ensures
        rest is None ==> location@ == lossy_text(up@),
        rest matches Some(r) ==> ({
            let name = lossy_text(
                match file_name(root@) {
                    Some(n) => n,
                    None => root@,
                },
            );
            location@ == (if r@.len() == 0 {
                name
            } else {
                name + "/"@ + lossy_text(r@)
            })
        }),
{
}

/// Each kind of reclaimable space has its icon, each risk its class.
pub proof fn kinds_and_risks_have_their_looks(kind: ReclaimKind, icon: &'static str, risk: Risk, class: &'static str)
    requires
        call_ensures(reclaim_icon, (kind,), icon),
        call_ensures(risk_class, (risk,), class),
    ensures
        kind is Trash ==> icon@ == "user-trash-full-symbolic"@,
        kind is Cache ==> icon@ == "folder-download-symbolic"@,
        kind is Artifact ==> icon@ == "folder-symbolic"@,
        risk is Safe ==> class@ == "risk-safe"@,
        risk is Rebuild ==> class@ == "risk-rebuild"@,
        risk is Caution ==> class@ == "risk-caution"@,
{
}

/// A row of the reclaim view shows its entry: what it is, how much and how many files it
/// holds, and what removing it means. Its button removes for good exactly if that mode is
/// on or the entry is the Trash, and looks and reads accordingly.
pub proof fn rows_show_their_entry(
    item: &Reclaimable,
    perm: bool,
    selected: bool,
    what: Consequence,
    word: &'static str,
    icon: &'static str,
    class: &'static str,
    count: String,
    menu: Vec<MenuItem>,
    row: ReclaimRow,
)
    requires
        call_ensures(consequence, (item,), what),
        call_ensures(Risk::word, (what.risk,), word),
        call_ensures(reclaim_icon, (item.kind,), icon),
        call_ensures(risk_class, (what.risk,), class),
        call_ensures(files_phrase, (item.file_count,), count),
        call_ensures(reclaim_menu, (item.kind,), menu),
        call_ensures(reclaim_row, (item, perm, selected), row),
    ensures
        row.selected == selected,
        row.icon@ == icon@,
        row.label@ == item.label@,
        row.risk@ == word@,
        row.risk_class@ == class@,
        row.summary@ == what.summary@,
        row.size@ == human(item.size),
        row.count@ == count@,
        row.primary == (if perm || item.kind is Trash {
            RowAction::Delete
        } else {
            RowAction::Trash
        }),
        row.destructive <==> perm || item.kind is Trash,
        row.button_icon@ == (if perm && !(item.kind is Trash) {
            "edit-delete-symbolic"@
        } else {
            "user-trash-symbolic"@
        }),
        row.button_tooltip@ == (if item.kind is Trash {
            "Empty (delete permanently)"@
        } else if perm {
            "Delete permanently"@
        } else {
            "Move to Trash"@
        }),
        row.path@ == item.path@,
        row.tooltip@ == lossy_text(item.path@),
        views(row.menu@) == views(menu@),
{
    assert(row@.label == item@.label);
}

/// A folder lists all its children, in their order; an empty one says so. Shares are taken
/// of its size, and the page is headed by its name and its path.
pub proof fn folders_list_their_children(root: &Node, path: &[usize], page: ListPage)
    requires
        call_ensures(folder_page, (root, path), page),
    ensures
        ({
            let folder = node_at(root@, indices(path@));
            &&& page.rows@.len() == folder.children.len()
            &&& forall|i: int|
                0 <= i < page.rows@.len() ==> (#[trigger] page.rows@[i]).name@ == folder.children[i].name && page.rows@[i].path@
                    == folder.children[i].path && page.rows@[i].bytes == folder.children[i].size && page.rows@[i].size@ == human(
                    folder.children[i].size,
                ) && page.rows@[i].opens == folder.children[i].is_dir && page.rows@[i].location is None
            &&& page.note is Some <==> folder.children.len() == 0
            &&& page.note matches Some(text) ==> text@ == "This folder is empty."@
            &&& page.total == (if folder.size == 0 {
                1
            } else {
                folder.size
            })
            &&& page.title@ == folder.name
            &&& page.subtitle@ == lossy_text(folder.path)
        }),
{
    let folder = node_at(root@, indices(path@));
    assert(views(page.rows@).len() == page.rows@.len());
    assert forall|i: int| 0 <= i < page.rows@.len() implies (#[trigger] page.rows@[i])@ == views(page.rows@)[i] by {}
    assert(page@.note == text_model(page.note));
}

/// Rows of found nodes: as many as are shown, in the order they were found, each with the
/// place where it lies.
pub open spec fn rows_show(rows: Seq<FileRow>, root: Seq<u8>, found: Seq<NodeView>, shown: int) -> bool {
    &&& rows.len() == (if found.len() <= shown {
        found.len() as int
    } else {
        shown
    })
    &&& forall|i: int|
        0 <= i < rows.len() ==> (#[trigger] rows[i]).name@ == found[i].name && rows[i].path@ == found[i].path && rows[i].bytes
            == found[i].size && rows[i].size@ == human(found[i].size) && rows[i].opens == found[i].is_dir && (
        rows[i].location matches Some(text) && text@ == location_of(root, found[i].path))
}

/// A category lists its largest files, a hundred at most, and says how many more there are,
/// or that there are none; its total is that of all its files.
pub proof fn a_category_lists_its_largest_files(
    root: &Node,
    category: Category,
    listed: Vec<&Node>,
    name: &'static str,
    page: ListPage,
)
    requires
        sum_sizes(files_in(root@, category)) <= u64::MAX,
        call_ensures(files_by_size, (root, category), listed),
        call_ensures(Category::label, (category,), name),
        call_ensures(category_page, (root, category), page),
    ensures
        rows_show(page.rows@, root@.path, views(listed@), 100),
        page.note is Some <==> listed@.len() == 0 || listed@.len() > 100,
        page.note matches Some(text) ==> text@ == (if listed@.len() == 0 {
            "No "@ + name@.map_values(|c: char| ascii_lower(c)) + " found."@
        } else {
            "…and "@ + decimal((listed@.len() - 100) as nat) + " more files"@
        }),
        page.total == (if bytes_together(views(listed@)) == 0 {
            1
        } else {
            bytes_together(views(listed@))
        }),
        page.title@ == name@,
        page.subtitle@ == human(page.total),
{
    let all = files_in(root@, category);
    node_order_is_total();
    stable_sort_exists(all, node_le());
    lemma_sum_permutation(views(listed@), all);
    sizes_add_up(views(listed@));
    assert(views(listed@).len() == listed@.len());
    lemma_rows_show(page.rows@, root@.path, views(listed@), 100);
    assert(page@.note == text_model(page.note));
}

proof fn lemma_rows_show(rows: Seq<FileRow>, root: Seq<u8>, found: Seq<NodeView>, shown: int)
    requires
        shown >= 0,
        views(rows) == at_most(found, shown).map_values(
            |n: NodeView| file_row_of(n, Some(location_of(root, n.path))),
        ),
    ensures
        rows_show(rows, root, found, shown),
{
    assert(views(rows).len() == rows.len());
    assert forall|i: int| 0 <= i < rows.len() implies (#[trigger] rows[i])@ == views(rows)[i] by {}
    assert forall|i: int| 0 <= i < rows.len() implies (#[trigger] rows[i]).location matches Some(text) && text@
        == location_of(root, found[i].path) by {
        assert(rows[i]@.location == text_model(rows[i].location));
    }
}

/// Search results are listed as they were found, two hundred at most, and the page says how
/// many more there are, or that there are none; its title counts all of them and its
/// subtitle tells their bytes.
pub proof fn results_are_listed_and_counted(root: &Node, query: &str, found: &[&Node], page: ListPage)
    requires
        sum_sizes(views(found@)) <= u64::MAX,
        call_ensures(results_page, (root, query, found), page),
    ensures
        rows_show(page.rows@, root@.path, views(found@), 200),
        page.note is Some <==> found@.len() == 0 || found@.len() > 200,
        page.note matches Some(text) ==> text@ == (if found@.len() == 0 {
            "No matches for “"@ + query@ + "”."@
        } else {
            "…and "@ + decimal((found@.len() - 200) as nat) + " more matches"@
        }),
        page.total == (if bytes_together(views(found@)) == 0 {
            1
        } else {
            bytes_together(views(found@))
        }),
        page.title@ == decimal(found@.len()) + " "@ + (if found@.len() == 1 {
            "result"@
        } else {
            "results"@
        }),
        page.subtitle@ == "“"@ + query@ + "” · "@ + human(bytes_together(views(found@)) as u64),
{
    sizes_add_up(views(found@));
    assert(views(found@).len() == found@.len());
    lemma_rows_show(page.rows@, root@.path, views(found@), 200);
    assert(page@.note == text_model(page.note));
}

/// The search page prompts before anything is typed, and shows what a search finds after
/// that.
pub proof fn the_search_page_shows_the_search(
    root: &Node,
    query: &str,
    min: u64,
    found: Vec<&Node>,
    results: &[&Node],
    shown: ListPage,
    page: Option<ListPage>,
)
    requires
        call_ensures(search, (root, query, min), found),
        results@ == found@,
        call_ensures(results_page, (root, query, results), shown),
        call_ensures(search_page, (root, query, min), page),
    ensures
        query@.len() == 0 ==> (page matches Some(p) && p.rows@.len() == 0 && p.note is Some && p.note->0@
            == "Type to search this folder by name."@ && p.total == 1 && p.title@ == "Search"@ && p.subtitle@.len() == 0),
        query@.len() > 0 ==> (page is Some <==> bytes_together(views(found@)) <= u64::MAX),
        query@.len() > 0 ==> (page matches Some(p) ==> p@ == shown@),
{
    sizes_add_up(views(found@));
    if let Some(p) = page {
        assert(views(p.rows@).len() == p.rows@.len());
        assert(p@.note == text_model(p.note));
    }
}

/// Adding up the bytes of nodes gives all of them, or nothing where they are too many.
pub proof fn totals_are_exact(nodes: &[&Node], total: Option<u64>)
    requires
        call_ensures(total_bytes, (nodes,), total),
    ensures
        total is Some <==> bytes_together(views(nodes@)) <= u64::MAX,
        total matches Some(bytes) ==> bytes == bytes_together(views(nodes@)),
{
    sizes_add_up(views(nodes@));
}

/// The overview has a row for each category with its bytes, in the order of the totals;
/// its total is theirs; and it tells what is free of what the disk holds, where the disk
/// holds anything.
pub proof fn the_overview_shows_the_totals(root: &Node, usage: Option<DiskUsage>, totals: Vec<(Category, u64)>, page: OverviewPage)
    requires
        sum_sizes(files(root@)) <= u64::MAX,
        call_ensures(category_totals, (root,), totals),
        call_ensures(overview_page, (root, usage), page),
    ensures
        page.rows@.len() == totals@.len(),
        forall|i: int|
            0 <= i < totals@.len() ==> (#[trigger] page.rows@[i]).category == totals@[i].0 && page.rows@[i].bytes == totals@[i].1
                && page.rows@[i].size@ == human(totals@[i].1) && page.rows@[i].name@ == label_of(totals@[i].0),
        page.used == bytes_together(files(root@)),
        page.used_text@ == human(page.used),
        page.capacity is Some <==> (usage matches Some(u) && u.total > 0),
        page.capacity matches Some(c) ==> usage == Some(c) && page.caption@ == human(c.available) + " free of "@ + human(c.total),
        page.capacity is None ==> page.caption@ == "Disk capacity unavailable"@,
        page.note is Some <==> totals@.len() == 0,
        page.note matches Some(text) ==> text@ == "Nothing to show — this folder is empty."@,
        page.subtitle@ == lossy_text(root@.path),
{
    sizes_add_up(files(root@));
    assert(views(page.rows@).len() == page.rows@.len());
    assert forall|i: int| 0 <= i < page.rows@.len() implies (#[trigger] page.rows@[i])@ == views(page.rows@)[i] by {}
    assert(page@.note == text_model(page.note));
}

/// The breadcrumb leads from the root to the folder that is shown, one step at a time: each
/// crumb is named after its folder, and only the last is the current one.
pub proof fn crumbs_lead_to_the_folder(root: &Node, path: &[usize], crumbs: Vec<Crumb>, level: int)
    requires
        call_ensures(breadcrumb, (root, path), crumbs),
        0 <= level <= path@.len(),
    ensures
        crumbs@.len() == path@.len() + 1,
        crumbs@[level].label@ == node_at(root@, indices(path@).take(level)).name,
        crumbs@[level].current <==> level == path@.len(),
        crumbs@[0].label@ == root@.name,
        level < path@.len() ==> node_at(root@, indices(path@).take(level + 1)) == node_at(
            root@,
            indices(path@).take(level),
        ).children[path@[level] as int] || !leads(root@, indices(path@)),
{
    let p = indices(path@);
    assert(views(crumbs@).len() == crumbs@.len());
    assert(crumbs@[level]@ == views(crumbs@)[level]);
    assert(crumbs@[0]@ == views(crumbs@)[0]);
    assert(p.take(0) =~= Seq::<int>::empty());
    assert(node_at(root@, Seq::empty()) == root@);
    if level < path@.len() && leads(root@, p) {
        let up = p.take(level);
        let longer = p.take(level + 1);
        assert(longer =~= up.push(p[level]));
        lemma_prefix(root@, p, level + 1);
        a_drill_down_goes_step_by_step(root@, up, p[level]);
    }
}

proof fn lemma_prefix(root: NodeView, path: Seq<int>, level: int)
    requires
        leads(root, path),
        0 <= level <= path.len(),
    ensures
        leads(root, path.take(level)),
    decreases path.len() - level,
{
    if level < path.len() {
        lemma_prefix(root, path, level + 1);
        assert(path.take(level + 1) =~= path.take(level).push(path[level]));
        a_drill_down_goes_step_by_step(root, path.take(level), path[level]);
    } else {
        assert(path.take(level) =~= path);
    }
}

/// The bar for a selection counts what is ticked and tells its bytes; without anything
/// ticked there is none.
pub proof fn the_bar_counts_what_is_ticked(
    state: &AppState,
    items: Vec<Reclaimable>,
    ticked: &[Reclaimable],
    total: Option<u64>,
    bar: Option<SelectionBar>,
)
    requires
        call_ensures(AppState::selected_items, (state,), items),
        ticked@ == items@,
        call_ensures(total_reclaimable, (ticked,), total),
        total is Some,
        call_ensures(selection_bar, (state,), bar),
    ensures
        bar is Some <==> items@.len() > 0,
        bar matches Some(b) ==> b.label@ == decimal(items@.len()) + " selected · "@ + human(total->0) && b.clear@ == (if state@.perm {
            "Delete"@
        } else {
            "Move to Trash"@
        }) + " ("@ + decimal(items@.len()) + ")"@,
{
    assert(views(items@).len() == items@.len());
}

/// The bytes of some entries together.
pub open spec fn entry_bytes_together(entries: Seq<Reclaimable>) -> int {
    entries.map_values(|r: Reclaimable| r.size as int).fold_left(0, |sum: int, size: int| sum + size)
}

proof fn lemma_entry_bytes(entries: Seq<Reclaimable>)
    ensures
        sum_reclaimed(views(entries)) == entry_bytes_together(entries),
    decreases entries.len(),
{
    let f = |r: Reclaimable| r.size as int;
    if entries.len() > 0 {
        lemma_entry_bytes(entries.drop_last());
        assert(views(entries).drop_last() =~= views(entries.drop_last()));
        assert(views(entries).last() == entries.last()@);
        assert(entries.map_values(f).drop_last() =~= entries.drop_last().map_values(f));
    }
}

/// Adding up the bytes of entries gives all of them, or nothing where they are too many;
/// what can be reclaimed is the spots and the artifacts together.
pub proof fn reclaimable_totals_are_exact(
    entries: &[Reclaimable],
    some: Option<u64>,
    state: &AppState,
    all: Option<u64>,
)
    requires
        call_ensures(total_reclaimable, (entries,), some),
        call_ensures(reclaimable_total, (state,), all),
    ensures
        some is Some <==> entry_bytes_together(entries@) <= u64::MAX,
        some matches Some(bytes) ==> bytes == entry_bytes_together(entries@),
        all is Some <==> entry_bytes_together(state.system@) + entry_bytes_together(state.artifacts@) <= u64::MAX,
        all matches Some(bytes) ==> bytes == entry_bytes_together(state.system@) + entry_bytes_together(state.artifacts@),
{
    lemma_entry_bytes(entries@);
    lemma_entry_bytes(state.system@);
    lemma_entry_bytes(state.artifacts@);
    lemma_reclaimed_add(state@.system, state@.artifacts);
}

/// The reclaim page has a row for each spot and for each artifact, in their order, ticked
/// exactly if its path is; its total is that of all of them; and it says so where there is
/// nothing to reclaim.
pub proof fn the_reclaim_page_shows_every_entry(
    state: &AppState,
    perm: bool,
    total: Option<u64>,
    page: ReclaimPage,
    entry: &Reclaimable,
    row: ReclaimRow,
)
    requires
        call_ensures(reclaimable_total, (state,), total),
        total is Some,
        call_ensures(reclaim_page, (state, perm), page),
        call_ensures(reclaim_row, (entry, perm, state@.selected.contains(components(entry.path@))), row),
    ensures
        page.total@ == human(total->0),
        page.system@.len() == state.system@.len(),
        page.artifacts@.len() == state.artifacts@.len(),
        forall|i: int| 0 <= i < page.system@.len() && state.system@[i]@ == entry@ ==> (#[trigger] page.system@[i])@ == row@,
        forall|i: int|
            0 <= i < page.artifacts@.len() && state.artifacts@[i]@ == entry@ ==> (#[trigger] page.artifacts@[i])@ == row@,
        page.note is Some <==> state.system@.len() + state.artifacts@.len() == 0,
        page.note matches Some(text) ==> text@ == "Nothing to reclaim — you're all clean."@,
{
    assert(views(page.system@).len() == page.system@.len() && views(page.artifacts@).len() == page.artifacts@.len());
    assert(state@.system.len() == state.system@.len() && state@.artifacts.len() == state.artifacts@.len());
    assert forall|i: int| 0 <= i < page.system@.len() implies (#[trigger] page.system@[i])@ == views(page.system@)[i]
        && state@.system[i] == state.system@[i]@ by {}
    assert forall|i: int| 0 <= i < page.artifacts@.len() implies (#[trigger] page.artifacts@[i])@ == views(
        page.artifacts@,
    )[i] && state@.artifacts[i] == state.artifacts@[i]@ by {}
    assert(page@.note == text_model(page.note));
}

/// The capacity of a disk is its blocks in fragments, or in blocks where the size of a
/// fragment is not known; what is in use is what is not available.
pub proof fn capacities_are_counted_in_units(stat: FilesystemStat, fits: bool, usage: Option<DiskUsage>, none: Option<DiskUsage>)
    requires
        call_ensures(can_count, (&stat,), fits),
        fits,
        call_ensures(disk_usage, (Some(stat),), usage),
        call_ensures(disk_usage, (None::<FilesystemStat>,), none),
    ensures
        none is None,
        usage matches Some(u) && (stat.fragment_size > 0 ==> u.total == stat.blocks * stat.fragment_size && u.available
            == stat.blocks_available * stat.fragment_size) && (stat.fragment_size == 0 ==> u.total == stat.blocks
            * stat.block_size && u.available == stat.blocks_available * stat.block_size),
{
}

/// Capacities can be counted exactly if both fit in 64 bits.
pub proof fn capacities_fit_in_64_bits(stat: FilesystemStat, fits: bool, unit: int)
    requires
        call_ensures(can_count, (&stat,), fits),
        unit == (if stat.fragment_size > 0 {
            stat.fragment_size as int
        } else {
            stat.block_size as int
        }),
    ensures
        fits <==> stat.blocks * unit < 0x1_0000_0000_0000_0000 && stat.blocks_available * unit < 0x1_0000_0000_0000_0000,
{
}

/// What is used and what is available make up the disk, unless more is available than there
/// is, where nothing is used.
pub proof fn used_is_what_is_not_available(usage: DiskUsage, used: u64)
    requires
        call_ensures(DiskUsage::used, (&usage,), used),
    ensures
        usage.available <= usage.total ==> used + usage.available == usage.total,
        usage.available > usage.total ==> used == 0,
{
}

/// All actions that there are stand in the list of them, each once.
pub proof fn every_action_is_known(action: RowAction)
    ensures
        exists|i: int| 0 <= i < RowAction::ALL@.len() && #[trigger] RowAction::ALL@[i] == action,
        forall|i: int, j: int| 0 <= i < j < RowAction::ALL@.len() ==> #[trigger] RowAction::ALL@[i] != #[trigger] RowAction::ALL@[j],
{
    let all = RowAction::ALL@;
    assert(all.len() == 6);
    assert(all[0] is Open && all[1] is Reveal && all[2] is Terminal);
    assert(all[3] is CopyPath && all[4] is Trash && all[5] is Delete);
}

} // verus!
