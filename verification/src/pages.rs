//! The pages: what the storage overview, a category, a folder, the search results and
//! the reclaim view show.
use vstd::prelude::*;
use vstd::string::*;

use crate::category::{
    at_most, bytes_in, category_totals, files_by_size, files_in, label_of, lemma_bytes_at_most_all, sum_totals, total_le,
    totals_make_up_the_size, used_categories, Category,
};
use crate::clearing::{is_ticked, ticked};
use crate::disk::DiskUsage;
use crate::format::{human, human_size};
use crate::navigate::{folder_node, indices, leads, node_at};
use crate::order::{sorted_stably, stable_sort_exists, views};
use crate::path::components;
use crate::query::{hits, search};
use crate::reclaim::{lemma_reclaimed_add, sum_reclaimed, Reclaimable, ReclaimableView};
use crate::rows::{
    build_row, category_row, category_row_of, file_location, file_row_of, location_of, reclaim_row, reclaim_row_of,
    text_model, CategoryRow, CategoryRowView, FileRow, FileRowView, ReclaimRow, ReclaimRowView,
};
use crate::state::{AppState, AppView};
use crate::text::{ascii_lower, decimal, decimal_text, lossy_text};
use crate::tree::{
    files, lemma_node_view, lemma_one_more, lemma_sum_permutation, lemma_sum_sizes_add, node_le, node_order_is_total,
    sum_sizes, Node, NodeView,
};

verus! {

/// The model of a [`ListPage`].
#[verifier::ext_equal]
pub struct ListPageView {
    pub rows: Seq<FileRowView>,
    pub note: Option<Seq<char>>,
    pub total: u64,
    pub title: Seq<char>,
    pub subtitle: Seq<char>,
}

/// A page with a list of files and folders.
#[derive(Debug)]
pub struct ListPage {
    pub rows: Vec<FileRow>,
    /// A line below the rows, or in their place.
    pub note: Option<String>,
    /// What the rows' shares are taken of; at least one.
    pub total: u64,
    pub title: String,
    pub subtitle: String,
}

impl View for ListPage {
    type V = ListPageView;

    open spec fn view(&self) -> ListPageView {
        ListPageView {
            rows: views(self.rows@),
            note: text_model(self.note),
            total: self.total,
            title: self.title@,
            subtitle: self.subtitle@,
        }
    }
}

/// The number, or one in place of zero.
pub open spec fn at_least_one(n: nat) -> u64 {
    if n == 0 {
        1
    } else {
        n as u64
    }
}

/// The page of a folder.
pub open spec fn folder_page_of(folder: NodeView) -> ListPageView {
    ListPageView {
        rows: folder.children.map_values(|child: NodeView| file_row_of(child, None)),
        note: if folder.children.len() == 0 {
            Some("This folder is empty."@)
        } else {
            None
        },
        total: at_least_one(folder.size as nat),
        title: folder.name,
        subtitle: lossy_text(folder.path),
    }
}

/// The directory tree browser: one row per child of the folder (largest-first), or a
/// single placeholder when empty. The absolute path is shown so it's always clear
/// where you are.
pub fn folder_page(root: &Node, path: &[usize]) -> (page: ListPage)
    requires
        leads(root@, indices(path@)),
    ensures
        page@ == folder_page_of(node_at(root@, indices(path@))),
{
    let folder = folder_node(root, path);
    let mut rows: Vec<FileRow> = Vec::new();
    let ghost all = folder_page_of(folder@).rows;
    let mut i: usize = 0;
    proof {
        lemma_node_view(*folder);
    }
    while i < folder.children.len()
        invariant
            i <= folder.children@.len(),
            folder@.children == views(folder.children@),
            all == folder_page_of(folder@).rows,
            views(rows@) == all.take(i as int),
        decreases folder.children@.len() - i,
    {
        let ghost before = views(rows@);
        let row = build_row(&folder.children[i], None);
        assert(row@ == all[i as int]);
        rows.push(row);
        assert(views(rows@) =~= before.push(all[i as int]));
        assert(all.take(i + 1) =~= all.take(i as int).push(all[i as int]));
        i += 1;
    }
    assert(all.take(i as int) =~= all);
    ListPage {
        rows,
        note: if folder.children.len() == 0 {
            Some(String::from_str("This folder is empty."))
        } else {
            None
        },
        total: if folder.size == 0 {
            1
        } else {
            folder.size
        },
        title: folder.name.clone(),
        subtitle: folder.path.to_string_lossy(),
    }
}

/// The bytes of some nodes together, if they can be told in 64 bits.
pub fn total_bytes(nodes: &[&Node]) -> (total: Option<u64>)
    ensures
        match total {
            Some(bytes) => bytes == sum_sizes(views(nodes@)),
            None => sum_sizes(views(nodes@)) > u64::MAX,
        },
{
    let ghost all = views(nodes@);
    let mut total: u64 = 0;
    let mut i: usize = 0;
    assert(all.take(0) =~= Seq::<NodeView>::empty());
    while i < nodes.len()
        invariant
            i <= nodes@.len(),
            all == views(nodes@),
            total == sum_sizes(all.take(i as int)),
        decreases nodes@.len() - i,
    {
        proof {
            lemma_node_view(*nodes@[i as int]);
            lemma_one_more(all, i as int);
            assert(all =~= all.take(i + 1) + all.skip(i + 1));
            lemma_sum_sizes_add(all.take(i + 1), all.skip(i + 1));
        }
        match total.checked_add(nodes[i].size) {
            Some(sum) => {
                total = sum;
            },
            None => {
                return None;
            },
        }
        i += 1;
    }
    assert(all.take(i as int) =~= all);
    Some(total)
}

/// Rows with the place of each node, at most `shown` of them.
fn located_rows(root: &Node, nodes: &[&Node], shown: usize) -> (rows: Vec<FileRow>)
    ensures
        views(rows@) == at_most(views(nodes@), shown as int).map_values(
            |n: NodeView| file_row_of(n, Some(location_of(root@.path, n.path))),
        ),
{
    let ghost f = |n: NodeView| file_row_of(n, Some(location_of(root@.path, n.path)));
    let ghost all = at_most(views(nodes@), shown as int).map_values(f);
    let mut rows: Vec<FileRow> = Vec::new();
    let mut i: usize = 0;
    proof {
        lemma_node_view(*root);
    }
    while i < nodes.len() && i < shown
        invariant
            i <= nodes@.len(),
            i <= shown,
            root@.path == root.path@,
            f == |n: NodeView| file_row_of(n, Some(location_of(root@.path, n.path))),
            all == at_most(views(nodes@), shown as int).map_values(f),
            views(rows@) == all.take(i as int),
        decreases nodes@.len() - i,
    {
        let ghost before = views(rows@);
        let node = nodes[i];
        proof {
            lemma_node_view(*node);
        }
        let location = file_location(&root.path, &node.path);
        let row = build_row(node, Some(location));
        assert(row@ == all[i as int]);
        rows.push(row);
        assert(views(rows@) =~= before.push(all[i as int]));
        assert(all.take(i + 1) =~= all.take(i as int).push(all[i as int]));
        i += 1;
    }
    assert(all.take(i as int) =~= all);
    rows
}

/// How many files of a category are listed.
pub const CATEGORY_SHOWN: usize = 100;

/// How many search results are listed.
pub const SEARCH_SHOWN: usize = 200;

/// A line for what is not listed.
pub open spec fn more_of(count: nat, what: Seq<char>) -> Seq<char> {
    "…and "@ + decimal(count) + what
}

fn more_text(count: usize, what: &str) -> (text: String)
    ensures
        text@ == more_of(count as nat, what@),
{
    let mut text = String::from_str("…and ");
    text.append(decimal_text(count as u64).as_str());
    text.append(what);
    text
}

/// The page of a category.
pub open spec fn category_page_of(root: NodeView, category: Category) -> ListPageView {
    let listed = sorted_stably(files_in(root, category), node_le());
    let total = at_least_one(sum_sizes(files_in(root, category)));
    ListPageView {
        rows: at_most(listed, CATEGORY_SHOWN as int).map_values(
            |n: NodeView| file_row_of(n, Some(location_of(root.path, n.path))),
        ),
        note: if listed.len() == 0 {
            Some("No "@ + label_of(category).map_values(|c: char| ascii_lower(c)) + " found."@)
        } else if listed.len() > CATEGORY_SHOWN {
            Some(more_of((listed.len() - CATEGORY_SHOWN) as nat, " more files"@))
        } else {
            None
        },
        total,
        title: label_of(category),
        subtitle: human(total),
    }
}

/// The largest files of one category.
pub fn category_page(root: &Node, category: Category) -> (page: ListPage)
    requires
        sum_sizes(files_in(root@, category)) <= u64::MAX,
    ensures
        page@ == category_page_of(root@, category),
{
    let listed = files_by_size(root, category);
    proof {
        let all = files_in(root@, category);
        node_order_is_total();
        stable_sort_exists(all, node_le());
        lemma_sum_permutation(sorted_stably(all, node_le()), all);
    }
    let total: u64 = match total_bytes(listed.as_slice()) {
        Some(bytes) => if bytes == 0 {
            1
        } else {
            bytes
        },
        // The files add up, as was asked for.
        None => 1,
    };
    let rows = located_rows(root, listed.as_slice(), CATEGORY_SHOWN);
    let note = if listed.len() == 0 {
        let mut text = String::from_str("No ");
        text.append(category.label().to_ascii_lowercase().as_str());
        text.append(" found.");
        Some(text)
    } else if listed.len() > CATEGORY_SHOWN {
        Some(more_text(listed.len() - CATEGORY_SHOWN, " more files"))
    } else {
        None
    };
    ListPage { rows, note, total, title: String::from_str(category.label()), subtitle: human_size(total) }
}

/// The page of some search results.
pub open spec fn results_page_of(root: NodeView, query: Seq<char>, found: Seq<NodeView>) -> ListPageView {
    let total = sum_sizes(found) as u64;
    ListPageView {
        rows: at_most(found, SEARCH_SHOWN as int).map_values(
            |n: NodeView| file_row_of(n, Some(location_of(root.path, n.path))),
        ),
        note: if found.len() == 0 {
            Some("No matches for “"@ + query + "”."@)
        } else if found.len() > SEARCH_SHOWN {
            Some(more_of((found.len() - SEARCH_SHOWN) as nat, " more matches"@))
        } else {
            None
        },
        total: at_least_one(sum_sizes(found)),
        title: decimal(found.len()) + " "@ + if found.len() == 1 {
            "result"@
        } else {
            "results"@
        },
        subtitle: "“"@ + query + "” · "@ + human(total),
    }
}

/// The page of search results: every entry that was found, with its location.
pub fn results_page(root: &Node, query: &str, found: &[&Node]) -> (page: ListPage)
    requires
        sum_sizes(views(found@)) <= u64::MAX,
    ensures
        page@ == results_page_of(root@, query@, views(found@)),
{
    let total: u64 = match total_bytes(found) {
        Some(bytes) => bytes,
        // The results add up, as was asked for.
        None => 0,
    };
    let rows = located_rows(root, found, SEARCH_SHOWN);
    let note = if found.len() == 0 {
        let mut text = String::from_str("No matches for “");
        text.append(query);
        text.append("”.");
        Some(text)
    } else if found.len() > SEARCH_SHOWN {
        Some(more_text(found.len() - SEARCH_SHOWN, " more matches"))
    } else {
        None
    };
    let mut title = decimal_text(found.len() as u64);
    title.append(" ");
    title.append(if found.len() == 1 {
        "result"
    } else {
        "results"
    });
    let mut subtitle = String::from_str("“");
    subtitle.append(query);
    subtitle.append("” · ");
    subtitle.append(human_size(total).as_str());
    ListPage {
        rows,
        note,
        total: if total == 0 {
            1
        } else {
            total
        },
        title,
        subtitle,
    }
}

/// The page before anything is typed.
pub open spec fn prompt_page_of() -> ListPageView {
    ListPageView {
        rows: Seq::empty(),
        note: Some("Type to search this folder by name."@),
        total: 1,
        title: "Search"@,
        subtitle: Seq::empty(),
    }
}

/// The search page: a prompt before anything is typed, else every entry whose name
/// matches the query and that is large enough, largest first. `None` if the sizes of
/// the matches together do not fit in 64 bits.
pub fn search_page(root: &Node, query: &str, min_size: u64) -> (page: Option<ListPage>)
    ensures
        query@.len() == 0 ==> (page matches Some(p) && p@ == prompt_page_of()),
        query@.len() > 0 ==> ({
            let found = sorted_stably(hits(root@, query@, min_size), node_le());
            match page {
                Some(p) => sum_sizes(found) <= u64::MAX && p@ == results_page_of(root@, query@, found),
                None => sum_sizes(found) > u64::MAX,
            }
        }),
{
    if query.is_empty() {
        let rows: Vec<FileRow> = Vec::new();
        assert(views(rows@) =~= Seq::<FileRowView>::empty());
        return Some(
            ListPage {
                rows,
                note: Some(String::from_str("Type to search this folder by name.")),
                total: 1,
                title: String::from_str("Search"),
                subtitle: String::new(),
            },
        );
    }
    let found = search(root, query, min_size);
    match total_bytes(found.as_slice()) {
        Some(_) => Some(results_page(root, query, found.as_slice())),
        None => None,
    }
}

/// The model of an [`OverviewPage`].
pub struct OverviewPageView {
    pub used: u64,
    pub used_text: Seq<char>,
    pub capacity: Option<DiskUsage>,
    pub caption: Seq<char>,
    pub rows: Seq<CategoryRowView>,
    pub note: Option<Seq<char>>,
    pub subtitle: Seq<char>,
}

/// The storage homepage.
#[derive(Debug)]
pub struct OverviewPage {
    /// The bytes of all categories; the rows' shares are taken of them.
    pub used: u64,
    pub used_text: String,
    /// The capacity of the disk, where it is known and the disk has any.
    pub capacity: Option<DiskUsage>,
    pub caption: String,
    pub rows: Vec<CategoryRow>,
    pub note: Option<String>,
    pub subtitle: String,
}

impl View for OverviewPage {
    type V = OverviewPageView;

    open spec fn view(&self) -> OverviewPageView {
        OverviewPageView {
            used: self.used,
            used_text: self.used_text@,
            capacity: self.capacity,
            caption: self.caption@,
            rows: views(self.rows@),
            note: text_model(self.note),
            subtitle: self.subtitle@,
        }
    }
}

/// The capacity to show: none for a disk without any.
pub open spec fn shown_capacity(usage: Option<DiskUsage>) -> Option<DiskUsage> {
    match usage {
        Some(u) => if u.total > 0 {
            Some(u)
        } else {
            None
        },
        None => None,
    }
}

/// The caption of the capacity.
pub open spec fn capacity_caption_of(usage: Option<DiskUsage>) -> Seq<char> {
    match shown_capacity(usage) {
        Some(u) => human(u.available) + " free of "@ + human(u.total),
        None => "Disk capacity unavailable"@,
    }
}

/// The storage homepage of a tree: its categories with their bytes, largest first.
pub open spec fn overview_page_of(root: NodeView, usage: Option<DiskUsage>) -> OverviewPageView {
    let totals = sorted_stably(used_categories(root), total_le());
    OverviewPageView {
        used: sum_totals(totals) as u64,
        used_text: human(sum_totals(totals) as u64),
        capacity: shown_capacity(usage),
        caption: capacity_caption_of(usage),
        rows: totals.map_values(|t: (Category, u64)| category_row_of(t)),
        note: if totals.len() == 0 {
            Some("Nothing to show — this folder is empty."@)
        } else {
            None
        },
        subtitle: lossy_text(root.path),
    }
}

/// The storage homepage: the total, the disk's capacity, and the category list.
pub fn overview_page(root: &Node, usage: Option<DiskUsage>) -> (page: OverviewPage)
    requires
        sum_sizes(files(root@)) <= u64::MAX,
    ensures
        page@ == overview_page_of(root@, usage),
        page.used == sum_sizes(files(root@)),
{
    proof {
        lemma_node_view(*root);
        assert forall|c: Category| #[trigger] bytes_in(files(root@), c) <= u64::MAX by {
            lemma_bytes_at_most_all(files(root@), c);
        }
        totals_make_up_the_size(root@);
    }
    let totals = category_totals(root);
    let ghost all = totals@.map_values(|t: (Category, u64)| category_row_of(t));
    let mut rows: Vec<CategoryRow> = Vec::new();
    let mut used: u64 = 0;
    let mut i: usize = 0;
    assert(totals@.take(0) =~= Seq::<(Category, u64)>::empty());
    while i < totals.len()
        invariant
            i <= totals@.len(),
            all == totals@.map_values(|t: (Category, u64)| category_row_of(t)),
            views(rows@) == all.take(i as int),
            used == sum_totals(totals@.take(i as int)),
            sum_totals(totals@) <= u64::MAX,
        decreases totals@.len() - i,
    {
        let ghost before = views(rows@);
        let (category, bytes) = totals[i];
        proof {
            lemma_sum_totals_prefix(totals@, i + 1);
            assert(totals@.take(i + 1).drop_last() =~= totals@.take(i as int));
        }
        used = used + bytes;
        let row = category_row(category, bytes);
        assert(row@ == all[i as int]);
        rows.push(row);
        assert(views(rows@) =~= before.push(all[i as int]));
        assert(all.take(i + 1) =~= all.take(i as int).push(all[i as int]));
        i += 1;
    }
    assert(all.take(i as int) =~= all);
    assert(totals@.take(i as int) =~= totals@);
    let capacity: Option<DiskUsage> = match usage {
        Some(u) => if u.total > 0 {
            Some(u)
        } else {
            None
        },
        None => None,
    };
    let caption = match capacity {
        Some(u) => {
            let mut text = human_size(u.available);
            text.append(" free of ");
            text.append(human_size(u.total).as_str());
            text
        },
        None => String::from_str("Disk capacity unavailable"),
    };
    let note = if totals.len() == 0 {
        Some(String::from_str("Nothing to show — this folder is empty."))
    } else {
        None
    };
    OverviewPage {
        used,
        used_text: human_size(used),
        capacity,
        caption,
        rows,
        note,
        subtitle: root.path.to_string_lossy(),
    }
}

proof fn lemma_sum_totals_prefix(s: Seq<(Category, u64)>, n: int)
    requires
        0 <= n <= s.len(),
    ensures
        sum_totals(s.take(n)) <= sum_totals(s),
    decreases s.len(),
{
    if n < s.len() {
        lemma_sum_totals_prefix(s.drop_last(), n);
        assert(s.drop_last().take(n) =~= s.take(n));
    } else {
        assert(s.take(n) =~= s);
    }
}

/// A step of the breadcrumb; its level is its place.
#[derive(Debug)]
pub struct Crumb {
    pub label: String,
    /// Whether it is the folder that is shown.
    pub current: bool,
}

/// The model of a [`Crumb`].
pub struct CrumbView {
    pub label: Seq<char>,
    pub current: bool,
}

impl View for Crumb {
    type V = CrumbView;

    open spec fn view(&self) -> CrumbView {
        CrumbView { label: self.label@, current: self.current }
    }
}

/// The breadcrumb: the folders from the root to the one that is shown.
pub open spec fn crumbs_of(root: NodeView, path: Seq<int>) -> Seq<CrumbView> {
    Seq::new(
        path.len() + 1,
        |level: int| CrumbView { label: node_at(root, path.take(level)).name, current: level == path.len() },
    )
}

/// The breadcrumb: root → current folder.
pub fn breadcrumb(root: &Node, path: &[usize]) -> (crumbs: Vec<Crumb>)
    requires
        leads(root@, indices(path@)),
    ensures
        views(crumbs@) == crumbs_of(root@, indices(path@)),
{
    let ghost p = indices(path@);
    let ghost all = crumbs_of(root@, p);
    let mut crumbs: Vec<Crumb> = Vec::new();
    let mut node = root;
    let mut i: usize = 0;
    proof {
        lemma_node_view(*root);
        assert(p.skip(0) =~= p);
        assert(p.take(0) =~= Seq::<int>::empty());
    }
    crumbs.push(Crumb { label: root.name.clone(), current: path.len() == 0 });
    assert(views(crumbs@) =~= all.take(1));
    while i < path.len()
        invariant
            i <= path@.len(),
            p == indices(path@),
            all == crumbs_of(root@, p),
            leads(node@, p.skip(i as int)),
            node@ == node_at(root@, p.take(i as int)),
            views(crumbs@) == all.take(i + 1),
        decreases path@.len() - i,
    {
        let ghost before = views(crumbs@);
        proof {
            lemma_node_view(*node);
            assert(p.skip(i as int)[0] == path@[i as int]);
            assert(p.skip(i as int).drop_first() =~= p.skip(i + 1));
            assert(node@.children[path@[i as int] as int] == node.children@[path@[i as int] as int]@);
            lemma_node_at_next(root@, p.take(i as int), p[i as int]);
            assert(p.take(i + 1) =~= p.take(i as int).push(p[i as int]));
        }
        node = &node.children[path[i]];
        i += 1;
        proof {
            lemma_node_view(*node);
        }
        crumbs.push(Crumb { label: node.name.clone(), current: i == path.len() });
        proof {
            assert(views(crumbs@) =~= before.push(all[i as int]));
            assert(all.take(i + 1) =~= all.take(i as int).push(all[i as int]));
        }
    }
    assert(all.take(i + 1) =~= all);
    crumbs
}

proof fn lemma_node_at_next(root: NodeView, path: Seq<int>, i: int)
    ensures
        node_at(root, path.push(i)) == node_at(root, path).children[i],
    decreases path.len(),
{
    let longer = path.push(i);
    if path.len() == 0 {
        reveal_with_fuel(node_at, 2);
        assert(longer.drop_first() =~= Seq::<int>::empty());
    } else {
        assert(longer[0] == path[0]);
        assert(longer.drop_first() =~= path.drop_first().push(i));
        lemma_node_at_next(root.children[path[0]], path.drop_first(), i);
    }
}

/// The model of a [`SelectionBar`].
pub struct SelectionBarView {
    pub label: Seq<char>,
    pub clear: Seq<char>,
}

/// The batch-selection bar.
#[derive(Debug)]
pub struct SelectionBar {
    pub label: String,
    /// The label of the clear button.
    pub clear: String,
}

impl View for SelectionBar {
    type V = SelectionBarView;

    open spec fn view(&self) -> SelectionBarView {
        SelectionBarView { label: self.label@, clear: self.clear@ }
    }
}

/// The batch-selection bar: none when nothing is ticked, otherwise the count, the
/// combined size, and a clear button labelled for the active removal mode.
pub open spec fn selection_bar_of(v: AppView) -> Option<SelectionBarView> {
    let count = ticked(v).len();
    if count == 0 {
        None
    } else {
        Some(
            SelectionBarView {
                label: decimal(count) + " selected · "@ + human(sum_reclaimed(ticked(v)) as u64),
                clear: (if v.perm {
                    "Delete"@
                } else {
                    "Move to Trash"@
                }) + " ("@ + decimal(count) + ")"@,
            },
        )
    }
}

/// The bytes of some entries together, if they can be told in 64 bits.
pub fn total_reclaimable(entries: &[Reclaimable]) -> (total: Option<u64>)
    ensures
        match total {
            Some(bytes) => bytes == sum_reclaimed(views(entries@)),
            None => sum_reclaimed(views(entries@)) > u64::MAX,
        },
{
    let ghost all = views(entries@);
    let mut total: u64 = 0;
    let mut i: usize = 0;
    assert(all.take(0) =~= Seq::<ReclaimableView>::empty());
    while i < entries.len()
        invariant
            i <= entries@.len(),
            all == views(entries@),
            total == sum_reclaimed(all.take(i as int)),
        decreases entries@.len() - i,
    {
        proof {
            assert(all.take(i + 1).drop_last() =~= all.take(i as int));
            assert(all.take(i + 1).last() == entries@[i as int]@);
            assert(all =~= all.take(i + 1) + all.skip(i + 1));
            lemma_reclaimed_add(all.take(i + 1), all.skip(i + 1));
        }
        match total.checked_add(entries[i].size) {
            Some(sum) => {
                total = sum;
            },
            None => {
                return None;
            },
        }
        i += 1;
    }
    assert(all.take(i as int) =~= all);
    Some(total)
}

/// The batch-selection bar of the current selection.
pub fn selection_bar(state: &AppState) -> (bar: Option<SelectionBar>)
    requires
        sum_reclaimed(state@.system + state@.artifacts) <= u64::MAX,
    ensures
        match bar {
            Some(b) => selection_bar_of(state@) == Some(b@),
            None => selection_bar_of(state@) is None,
        },
{
    let items = state.selected_items();
    let count: usize = items.len();
    if count == 0 {
        return None;
    }
    proof {
        lemma_filter_sum(state@.system + state@.artifacts, is_ticked(state@));
    }
    let bytes: u64 = match total_reclaimable(items.as_slice()) {
        Some(bytes) => bytes,
        // What is ticked adds up, as everything does.
        None => 0,
    };
    let mut label = decimal_text(count as u64);
    label.append(" selected · ");
    label.append(human_size(bytes).as_str());
    let mut clear = String::from_str(
        if state.reclaim_perm_delete {
            "Delete"
        } else {
            "Move to Trash"
        },
    );
    clear.append(" (");
    clear.append(decimal_text(count as u64).as_str());
    clear.append(")");
    Some(SelectionBar { label, clear })
}

proof fn lemma_filter_sum(s: Seq<ReclaimableView>, p: spec_fn(ReclaimableView) -> bool)
    ensures
        sum_reclaimed(s.filter(p)) <= sum_reclaimed(s),
    decreases s.len(),
{
    reveal(Seq::filter);
    if s.len() > 0 {
        lemma_filter_sum(s.drop_last(), p);
        if p(s.last()) {
            assert(s.drop_last().filter(p).push(s.last()).drop_last() =~= s.drop_last().filter(p));
        }
    }
}

/// The model of a [`ReclaimPage`].
pub struct ReclaimPageView {
    pub total: Seq<char>,
    pub system: Seq<ReclaimRowView>,
    pub artifacts: Seq<ReclaimRowView>,
    pub note: Option<Seq<char>>,
}

/// The "free up space" page.
#[derive(Debug)]
pub struct ReclaimPage {
    pub total: String,
    pub system: Vec<ReclaimRow>,
    pub artifacts: Vec<ReclaimRow>,
    pub note: Option<String>,
}

impl View for ReclaimPage {
    type V = ReclaimPageView;

    open spec fn view(&self) -> ReclaimPageView {
        ReclaimPageView {
            total: self.total@,
            system: views(self.system@),
            artifacts: views(self.artifacts@),
            note: text_model(self.note),
        }
    }
}

/// The rows of some entries, each ticked if it is selected.
pub open spec fn reclaim_rows_of(v: AppView, entries: Seq<ReclaimableView>, perm: bool) -> Seq<ReclaimRowView> {
    entries.map_values(
        |r: ReclaimableView| reclaim_row_of(r, perm, v.selected.contains(components(r.path))),
    )
}

/// The "free up space" page: the spots and the artifacts that were measured last.
pub open spec fn reclaim_page_of(v: AppView, perm: bool) -> ReclaimPageView {
    ReclaimPageView {
        total: human(sum_reclaimed(v.system + v.artifacts) as u64),
        system: reclaim_rows_of(v, v.system, perm),
        artifacts: reclaim_rows_of(v, v.artifacts, perm),
        note: if v.system.len() == 0 && v.artifacts.len() == 0 {
            Some("Nothing to reclaim — you're all clean."@)
        } else {
            None
        },
    }
}

fn reclaim_rows(state: &AppState, entries: &[Reclaimable], perm: bool) -> (rows: Vec<ReclaimRow>)
    ensures
        views(rows@) == reclaim_rows_of(state@, views(entries@), perm),
{
    let ghost all = reclaim_rows_of(state@, views(entries@), perm);
    let mut rows: Vec<ReclaimRow> = Vec::new();
    let mut i: usize = 0;
    while i < entries.len()
        invariant
            i <= entries@.len(),
            all == reclaim_rows_of(state@, views(entries@), perm),
            views(rows@) == all.take(i as int),
        decreases entries@.len() - i,
    {
        let ghost before = views(rows@);
        let selected = state.reclaim_selected.contains(&entries[i].path);
        let row = reclaim_row(&entries[i], perm, selected);
        assert(row@ == all[i as int]);
        rows.push(row);
        assert(views(rows@) =~= before.push(all[i as int]));
        assert(all.take(i + 1) =~= all.take(i as int).push(all[i as int]));
        i += 1;
    }
    assert(all.take(i as int) =~= all);
    rows
}

/// The bytes of everything that can be reclaimed, if they can be told in 64 bits.
pub fn reclaimable_total(state: &AppState) -> (total: Option<u64>)
    ensures
        match total {
            Some(bytes) => bytes == sum_reclaimed(state@.system + state@.artifacts),
            None => sum_reclaimed(state@.system + state@.artifacts) > u64::MAX,
        },
{
    proof {
        lemma_reclaimed_add(state@.system, state@.artifacts);
    }
    match (total_reclaimable(state.system.as_slice()), total_reclaimable(state.artifacts.as_slice())) {
        (Some(a), Some(b)) => a.checked_add(b),
        _ => None,
    }
}

/// The "free up space" page, with each row's primary action reflecting `perm`
/// (permanent-delete vs move-to-Trash).
pub fn reclaim_page(state: &AppState, perm: bool) -> (page: ReclaimPage)
    requires
        sum_reclaimed(state@.system + state@.artifacts) <= u64::MAX,
    ensures
        page@ == reclaim_page_of(state@, perm),
{
    let total: u64 = match reclaimable_total(state) {
        Some(bytes) => bytes,
        // The entries add up, as was asked for.
        None => 0,
    };
    ReclaimPage {
        total: human_size(total),
        system: reclaim_rows(state, state.system.as_slice(), perm),
        artifacts: reclaim_rows(state, state.artifacts.as_slice(), perm),
        note: if state.system.len() == 0 && state.artifacts.len() == 0 {
            Some(String::from_str("Nothing to reclaim — you're all clean."))
        } else {
            None
        },
    }
}

} // verus!
