//! Classify files into storage categories (Videos, Audio, Images, …) and
//! aggregate usage per category — the data behind the storage overview.
use vstd::prelude::*;
use vstd::string::*;

use crate::order::{merge_sort, sorted_stably, stable_sort_exists, stably_sorted, views, Ranked};
use crate::scan::Node;
use crate::text::{ascii_lower, compare_text, same_text, text_le, text_order_is_total};
use crate::tree::{
    consistent, files, files_make_up_the_size, files_of, lemma_files_of_add, lemma_node_view, lemma_one_more,
    lemma_sum_of_one, lemma_sum_sizes_add, node_le, node_order_is_total, sum_sizes, NodeView,
};

verus! {

/// A storage category, by file type.
#[derive(Debug, Clone, Copy, PartialEq, Eq, Hash, Structural)]
pub enum Category {
    Videos,
    Audio,
    Images,
    Documents,
    Archives,
    Code,
    Applications,
    Other,
}

impl View for Category {
    type V = Category;

    open spec fn view(&self) -> Category {
        *self
    }
}

/// The name of a category.
pub open spec fn label_of(category: Category) -> Seq<char> {
    match category {
        Category::Videos => "Videos"@,
        Category::Audio => "Audio"@,
        Category::Images => "Images"@,
        Category::Documents => "Documents"@,
        Category::Archives => "Archives"@,
        Category::Code => "Code"@,
        Category::Applications => "Applications"@,
        Category::Other => "Other"@,
    }
}

/// The category that a lowercased extension stands for.
pub open spec fn extension_category(ext: Seq<char>) -> Category {
    if ext == "mp4"@ || ext == "mkv"@ || ext == "mov"@ || ext == "avi"@ || ext == "webm"@
        || ext == "flv"@ || ext == "wmv"@ || ext == "m4v"@ || ext == "mpg"@ || ext == "mpeg"@
        || ext == "3gp"@ || ext == "ts"@ {
        Category::Videos
    } else if ext == "mp3"@ || ext == "flac"@ || ext == "wav"@ || ext == "ogg"@ || ext == "m4a"@
        || ext == "aac"@ || ext == "wma"@ || ext == "opus"@ || ext == "aiff"@ || ext == "mid"@ {
        Category::Audio
    } else if ext == "jpg"@ || ext == "jpeg"@ || ext == "png"@ || ext == "gif"@ || ext == "bmp"@
        || ext == "webp"@ || ext == "svg"@ || ext == "heic"@ || ext == "heif"@ || ext == "tiff"@
        || ext == "tif"@ || ext == "raw"@ || ext == "cr2"@ || ext == "nef"@ || ext == "ico"@
        || ext == "psd"@ {
        Category::Images
    } else if ext == "pdf"@ || ext == "doc"@ || ext == "docx"@ || ext == "xls"@ || ext == "xlsx"@
        || ext == "ppt"@ || ext == "pptx"@ || ext == "odt"@ || ext == "ods"@ || ext == "odp"@
        || ext == "txt"@ || ext == "md"@ || ext == "rtf"@ || ext == "epub"@ || ext == "csv"@
        || ext == "tex"@ {
        Category::Documents
    } else if ext == "zip"@ || ext == "tar"@ || ext == "gz"@ || ext == "bz2"@ || ext == "xz"@
        || ext == "7z"@ || ext == "rar"@ || ext == "zst"@ || ext == "tgz"@ || ext == "iso"@
        || ext == "lz"@ || ext == "lzma"@ || ext == "cab"@ {
        Category::Archives
    } else if ext == "rs"@ || ext == "py"@ || ext == "js"@ || ext == "jsx"@ || ext == "tsx"@
        || ext == "c"@ || ext == "cpp"@ || ext == "cc"@ || ext == "h"@ || ext == "hpp"@
        || ext == "java"@ || ext == "go"@ || ext == "rb"@ || ext == "php"@ || ext == "html"@
        || ext == "css"@ || ext == "json"@ || ext == "xml"@ || ext == "yaml"@ || ext == "yml"@
        || ext == "sh"@ || ext == "toml"@ || ext == "sql"@ || ext == "lua"@ || ext == "swift"@
        || ext == "kt"@ {
        Category::Code
    } else if ext == "exe"@ || ext == "msi"@ || ext == "appimage"@ || ext == "deb"@ || ext == "rpm"@
        || ext == "flatpak"@ || ext == "snap"@ || ext == "apk"@ || ext == "dmg"@
        || ext == "bin"@ || ext == "run"@ {
        Category::Applications
    } else {
        Category::Other
    }
}

/// The extension of a file name: what follows its last dot, unless the dot is the
/// first character or nothing follows it.
pub open spec fn extension(name: Seq<char>) -> Option<Seq<char>> {
    match name.index_of_last('.') {
        Some(dot) => if 0 < dot && dot + 1 < name.len() {
            Some(name.skip(dot + 1))
        } else {
            None
        },
        None => None,
    }
}

/// The category of a file name.
pub open spec fn category_of(name: Seq<char>) -> Category {
    match extension(name) {
        Some(ext) => extension_category(ext.map_values(|c: char| ascii_lower(c))),
        None => Category::Other,
    }
}

impl Category {
    /// All categories, in a stable order.
    pub const ALL: [Category; 8] = [
        Category::Videos,
        Category::Audio,
        Category::Images,
        Category::Documents,
        Category::Archives,
        Category::Code,
        Category::Applications,
        Category::Other,
    ];

    /// Human-readable name.
    pub fn label(self) -> (label: &'static str)
        ensures
            label@ == label_of(self),
    {
        match self {
            Category::Videos => "Videos",
            Category::Audio => "Audio",
            Category::Images => "Images",
            Category::Documents => "Documents",
            Category::Archives => "Archives",
            Category::Code => "Code",
            Category::Applications => "Applications",
            Category::Other => "Other",
        }
    }

    /// Map a lowercased file extension to a category.
    pub fn from_extension(ext: &str) -> (category: Category)
        ensures
            category == extension_category(ext@),
    {
        if same_text(ext, "mp4") || same_text(ext, "mkv") || same_text(ext, "mov")
            || same_text(ext, "avi") || same_text(ext, "webm") || same_text(ext, "flv")
            || same_text(ext, "wmv") || same_text(ext, "m4v") || same_text(ext, "mpg")
            || same_text(ext, "mpeg") || same_text(ext, "3gp") || same_text(ext, "ts") {
            Category::Videos
        } else if same_text(ext, "mp3") || same_text(ext, "flac") || same_text(ext, "wav")
            || same_text(ext, "ogg") || same_text(ext, "m4a") || same_text(ext, "aac")
            || same_text(ext, "wma") || same_text(ext, "opus") || same_text(ext, "aiff")
            || same_text(ext, "mid") {
            Category::Audio
        } else if same_text(ext, "jpg") || same_text(ext, "jpeg") || same_text(ext, "png")
            || same_text(ext, "gif") || same_text(ext, "bmp") || same_text(ext, "webp")
            || same_text(ext, "svg") || same_text(ext, "heic") || same_text(ext, "heif")
            || same_text(ext, "tiff") || same_text(ext, "tif") || same_text(ext, "raw")
            || same_text(ext, "cr2") || same_text(ext, "nef") || same_text(ext, "ico")
            || same_text(ext, "psd") {
            Category::Images
        } else if same_text(ext, "pdf") || same_text(ext, "doc") || same_text(ext, "docx")
            || same_text(ext, "xls") || same_text(ext, "xlsx") || same_text(ext, "ppt")
            || same_text(ext, "pptx") || same_text(ext, "odt") || same_text(ext, "ods")
            || same_text(ext, "odp") || same_text(ext, "txt") || same_text(ext, "md")
            || same_text(ext, "rtf") || same_text(ext, "epub") || same_text(ext, "csv")
            || same_text(ext, "tex") {
            Category::Documents
        } else if same_text(ext, "zip") || same_text(ext, "tar") || same_text(ext, "gz")
            || same_text(ext, "bz2") || same_text(ext, "xz") || same_text(ext, "7z")
            || same_text(ext, "rar") || same_text(ext, "zst") || same_text(ext, "tgz")
            || same_text(ext, "iso") || same_text(ext, "lz") || same_text(ext, "lzma")
            || same_text(ext, "cab") {
            Category::Archives
        } else if same_text(ext, "rs") || same_text(ext, "py") || same_text(ext, "js")
            || same_text(ext, "jsx") || same_text(ext, "tsx") || same_text(ext, "c")
            || same_text(ext, "cpp") || same_text(ext, "cc") || same_text(ext, "h")
            || same_text(ext, "hpp") || same_text(ext, "java") || same_text(ext, "go")
            || same_text(ext, "rb") || same_text(ext, "php") || same_text(ext, "html")
            || same_text(ext, "css") || same_text(ext, "json") || same_text(ext, "xml")
            || same_text(ext, "yaml") || same_text(ext, "yml") || same_text(ext, "sh")
            || same_text(ext, "toml") || same_text(ext, "sql") || same_text(ext, "lua")
            || same_text(ext, "swift") || same_text(ext, "kt") {
            Category::Code
        } else if same_text(ext, "exe") || same_text(ext, "msi") || same_text(ext, "appimage")
            || same_text(ext, "deb") || same_text(ext, "rpm") || same_text(ext, "flatpak")
            || same_text(ext, "snap") || same_text(ext, "apk") || same_text(ext, "dmg")
            || same_text(ext, "bin") || same_text(ext, "run") {
            Category::Applications
        } else {
            Category::Other
        }
    }

    /// Classify a file by its name's extension. Dotfiles (`.bashrc`) and
    /// extension-less files are [`Category::Other`].
    pub fn classify(file_name: &str) -> (category: Category)
        ensures
            category == category_of(file_name@),
    {
        match extension_of(file_name) {
            Some(ext) => Category::from_extension(ext.to_ascii_lowercase().as_str()),
            None => Category::Other,
        }
    }
}

/// The extension of a file name, if any. Ignores a leading dot so dotfiles are
/// treated as having no extension.
pub fn extension_of(name: &str) -> (ext: Option<&str>)
    ensures
        match ext {
            Some(e) => extension(name@) == Some(e@),
            None => extension(name@) is None,
        },
{
    let len: usize = name.unicode_len();
    let mut dot: Option<usize> = None;
    let mut i: usize = 0;
    for c in it: name.chars()
        invariant
            it.seq() == name@,
            len == name@.len(),
            i == it.index(),
            match dot {
                Some(d) => d < i && name@[d as int] == '.' && forall|k: int| d < k < i ==> name@[k] != '.',
                None => forall|k: int| 0 <= k < i ==> name@[k] != '.',
            },
    {
        if c == '.' {
            dot = Some(i);
        }
        i += 1;
    }
    proof {
        name@.index_of_last_ensures('.');
    }
    match dot {
        Some(d) => if d > 0 && d < len - 1 {
            assert(name@.index_of_last('.') == Some(d as int));
            assert(name@.skip(d + 1) =~= name@.subrange(d + 1, len as int));
            Some(name.substring_char(d + 1, len))
        } else {
            None
        },
        None => None,
    }
}

/// The files of a category.
pub open spec fn belongs_to(category: Category) -> spec_fn(NodeView) -> bool {
    |file: NodeView| category_of(file.name) == category
}

/// The bytes of a category among some files.
pub open spec fn bytes_in(s: Seq<NodeView>, category: Category) -> nat {
    sum_sizes(s.filter(belongs_to(category)))
}

/// Every category with its bytes across the files of a tree.
pub open spec fn tally(root: NodeView) -> Seq<(Category, u64)> {
    Category::ALL@.map_values(|c: Category| (c, bytes_in(files(root), c) as u64))
}

/// The categories with any bytes across the files of a tree.
pub open spec fn used_categories(root: NodeView) -> Seq<(Category, u64)> {
    tally(root).filter(|total: (Category, u64)| total.1 > 0)
}

/// The order of totals: largest first, and by label where they are equal.
pub open spec fn total_le() -> spec_fn((Category, u64), (Category, u64)) -> bool {
    |a: (Category, u64), b: (Category, u64)| a.1 > b.1 || (a.1 == b.1 && text_le(label_of(a.0), label_of(b.0)))
}

impl Ranked for (Category, u64) {
    open spec fn rank_le() -> spec_fn((Category, u64), (Category, u64)) -> bool {
        total_le()
    }

    proof fn rank_is_total() {
        text_order_is_total();
        let le = total_le();
        assert forall|a: (Category, u64), b: (Category, u64)| #[trigger] le(a, b) || le(b, a) by {
            assert(text_le(label_of(a.0), label_of(b.0)) || text_le(label_of(b.0), label_of(a.0)));
        }
        assert forall|a: (Category, u64), b: (Category, u64), c: (Category, u64)|
            #[trigger] le(a, b) && #[trigger] le(b, c) implies le(a, c) by {
            if a.1 == b.1 && b.1 == c.1 {
                assert(text_le(label_of(a.0), label_of(b.0)) && text_le(label_of(b.0), label_of(c.0)));
            }
        }
    }

    fn may_precede(&self, other: &(Category, u64)) -> (le: bool) {
        self.1 > other.1 || (self.1 == other.1 && compare_text(self.0.label(), other.0.label()))
    }
}

/// The place of a category among all of them.
pub open spec fn place_of(category: Category) -> int {
    match category {
        Category::Videos => 0,
        Category::Audio => 1,
        Category::Images => 2,
        Category::Documents => 3,
        Category::Archives => 4,
        Category::Code => 5,
        Category::Applications => 6,
        Category::Other => 7,
    }
}

fn place(category: Category) -> (i: usize)
    ensures
        i == place_of(category),
        i < 8,
{
    match category {
        Category::Videos => 0,
        Category::Audio => 1,
        Category::Images => 2,
        Category::Documents => 3,
        Category::Archives => 4,
        Category::Code => 5,
        Category::Applications => 6,
        Category::Other => 7,
    }
}

proof fn lemma_places(i: int)
    requires
        0 <= i < 8,
    ensures
        Category::ALL@.len() == 8,
        place_of(Category::ALL@[i]) == i,
{
}

proof fn lemma_bytes_add(a: Seq<NodeView>, b: Seq<NodeView>, category: Category)
    ensures
        bytes_in(a + b, category) == bytes_in(a, category) + bytes_in(b, category),
{
    let p = belongs_to(category);
    Seq::filter_distributes_over_add(a, b, p);
    lemma_sum_sizes_add(a.filter(p), b.filter(p));
}

proof fn lemma_bytes_of_one(file: NodeView, category: Category)
    ensures
        bytes_in(seq![file], category) == (if category_of(file.name) == category {
            file.size as nat
        } else {
            0
        }),
{
    reveal_with_fuel(Seq::filter, 2);
    assert(seq![file].drop_last() =~= Seq::<NodeView>::empty());
    lemma_sum_of_one(file);
    let p = belongs_to(category);
    if p(file) {
        assert(seq![file].filter(p) =~= seq![file]);
    } else {
        assert(seq![file].filter(p) =~= Seq::<NodeView>::empty());
    }
}

fn accumulate(node: &Node, totals: &mut Vec<u64>)
    requires
        old(totals)@.len() == 8,
        forall|c: Category|
            old(totals)@[place_of(c)] + #[trigger] bytes_in(files(node@), c) <= u64::MAX,
    ensures
        final(totals)@.len() == 8,
        forall|c: Category|
            final(totals)@[place_of(c)] == old(totals)@[place_of(c)] + #[trigger] bytes_in(files(node@), c),
    decreases node,
{
    let ghost before = totals@;
    let ghost children = node@.children;
    proof {
        lemma_node_view(*node);
    }
    if node.is_dir {
        let mut i: usize = 0;
        proof {
            assert(files_of(children.take(0)) =~= Seq::<NodeView>::empty());
            assert forall|c: Category| #[trigger] bytes_in(files_of(children.take(0)), c) == 0 by {
                reveal(Seq::filter);
            }
        }
        while i < node.children.len()
            invariant
                i <= node.children@.len(),
                node@.is_dir,
                children == node@.children,
                children == views(node.children@),
                totals@.len() == 8,
                forall|c: Category| before[place_of(c)] + #[trigger] bytes_in(files(node@), c) <= u64::MAX,
                forall|c: Category|
                    totals@[place_of(c)] == before[place_of(c)] + #[trigger] bytes_in(
                        files_of(children.take(i as int)),
                        c,
                    ),
            decreases node.children@.len() - i,
        {
            proof {
                lemma_one_more(children, i as int);
                assert(children[i as int] == node.children@[i as int]@);
                assert(children =~= children.take(i + 1) + children.skip(i + 1));
                lemma_files_of_add(children.take(i + 1), children.skip(i + 1));
                assert forall|c: Category|
                    totals@[place_of(c)] + #[trigger] bytes_in(files(children[i as int]), c) <= u64::MAX by {
                    lemma_bytes_add(files_of(children.take(i as int)), files(children[i as int]), c);
                    lemma_bytes_add(files_of(children.take(i + 1)), files_of(children.skip(i + 1)), c);
                    assert(before[place_of(c)] + bytes_in(files(node@), c) <= u64::MAX);
                    assert(bytes_in(files_of(children.take(i as int)), c) >= 0);
                }
            }
            let ghost mid = totals@;
            accumulate(&node.children[i], totals);
            proof {
                assert forall|c: Category|
                    totals@[place_of(c)] == before[place_of(c)] + #[trigger] bytes_in(
                        files_of(children.take(i + 1)),
                        c,
                    ) by {
                    lemma_bytes_add(files_of(children.take(i as int)), files(children[i as int]), c);
                    assert(mid[place_of(c)] == before[place_of(c)] + bytes_in(files_of(children.take(i as int)), c));
                    assert(bytes_in(files(children[i as int]), c) >= 0);
                }
            }
            i += 1;
        }
        assert(children.take(i as int) =~= children);
        assert(files(node@) == files_of(children.take(i as int)));
    } else {
        let category = Category::classify(node.name.as_str());
        let at: usize = place(category);
        proof {
            assert forall|c: Category|
                #[trigger] bytes_in(files(node@), c) == (if c == category {
                    node.size as nat
                } else {
                    0
                }) by {
                lemma_bytes_of_one(node@, c);
            }
            assert(bytes_in(files(node@), category) == node.size);
        }
        totals.set(at, totals[at] + node.size);
        assert forall|c: Category|
            totals@[place_of(c)] == before[place_of(c)] + #[trigger] bytes_in(files(node@), c) by {
            assert(place_of(c) == place_of(category) ==> c == category);
        }
    }
}

/// Total bytes per category across every file in the tree, largest-first.
/// Categories with zero bytes are omitted.
pub fn category_totals(root: &Node) -> (totals: Vec<(Category, u64)>)
    requires
        forall|c: Category| #[trigger] bytes_in(files(root@), c) <= u64::MAX,
    ensures
        totals@ == sorted_stably(used_categories(root@), total_le()),
        stably_sorted(totals@, used_categories(root@), total_le()),
{
    let mut sums: Vec<u64> = vec![0, 0, 0, 0, 0, 0, 0, 0];
    proof {
        assert forall|c: Category| sums@[place_of(c)] + #[trigger] bytes_in(files(root@), c) <= u64::MAX by {
            assert(bytes_in(files(root@), c) <= u64::MAX);
        }
    }
    accumulate(root, &mut sums);
    let ghost p = |total: (Category, u64)| total.1 > 0;
    let ghost all = tally(root@);
    let mut used: Vec<(Category, u64)> = Vec::new();
    let mut i: usize = 0;
    proof {
        reveal(Seq::filter);
        assert(all.take(0) =~= Seq::<(Category, u64)>::empty());
    }
    while i < 8
        invariant
            i <= 8,
            sums@.len() == 8,
            all == tally(root@),
            forall|c: Category| sums@[place_of(c)] == #[trigger] bytes_in(files(root@), c),
            p == |total: (Category, u64)| total.1 > 0,
            used@ == all.take(i as int).filter(p),
        decreases 8 - i,
    {
        let category = Category::ALL[i];
        let bytes: u64 = sums[i];
        proof {
            lemma_places(i as int);
            assert(bytes == bytes_in(files(root@), category));
            assert(all[i as int] == (category, bytes));
            reveal(Seq::filter);
            assert(all.take(i + 1).drop_last() =~= all.take(i as int));
            assert(all.take(i + 1).last() == all[i as int]);
        }
        if bytes > 0 {
            used.push((category, bytes));
        }
        i += 1;
    }
    proof {
        assert(all.take(8) =~= all);
        assert(views(used@) =~= used@);
    }
    let totals = merge_sort(used);
    assert(views(totals@) =~= totals@);
    totals
}

/// The files of a category in a tree, in order.
pub open spec fn files_in(root: NodeView, category: Category) -> Seq<NodeView> {
    files(root).filter(belongs_to(category))
}

/// The first `limit` of a list, or all of it.
pub open spec fn at_most<T>(s: Seq<T>, limit: int) -> Seq<T> {
    if limit <= s.len() {
        s.take(limit)
    } else {
        s
    }
}

/// The files belonging to `category`, largest-first.
pub fn files_by_size<'a>(root: &'a Node, category: Category) -> (found: Vec<&'a Node>)
    ensures
        views(found@) == sorted_stably(files_in(root@, category), node_le()),
{
    let mut found: Vec<&'a Node> = Vec::new();
    collect(root, category, &mut found);
    assert(views(found@) =~= files_in(root@, category));
    merge_sort(found)
}

/// The largest files belonging to `category`, largest-first, capped at `limit`.
pub fn largest_in_category<'a>(root: &'a Node, category: Category, limit: usize) -> (top: Vec<&'a Node>)
    ensures
        views(top@) == at_most(sorted_stably(files_in(root@, category), node_le()), limit as int),
{
    let mut top = files_by_size(root, category);
    let ghost sorted = views(top@);
    top.truncate(limit);
    assert(views(top@) =~= at_most(sorted, limit as int));
    top
}

fn collect<'a>(node: &'a Node, category: Category, out: &mut Vec<&'a Node>)
    ensures
        views(final(out)@) == views(old(out)@) + files_in(node@, category),
    decreases node,
{
    let ghost before = views(out@);
    let ghost children = node@.children;
    let ghost p = belongs_to(category);
    proof {
        lemma_node_view(*node);
        reveal(Seq::filter);
    }
    if node.is_dir {
        let mut i: usize = 0;
        assert(children.take(0) =~= Seq::<NodeView>::empty());
        assert(views(out@) =~= before + files_of(children.take(0)).filter(p));
        while i < node.children.len()
            invariant
                i <= node.children@.len(),
                children == node@.children,
                children == views(node.children@),
                p == belongs_to(category),
                views(out@) == before + files_of(children.take(i as int)).filter(p),
            decreases node.children@.len() - i,
        {
            collect(&node.children[i], category, out);
            proof {
                lemma_one_more(children, i as int);
                assert(children[i as int] == node.children@[i as int]@);
                Seq::filter_distributes_over_add(files_of(children.take(i as int)), files(children[i as int]), p);
                assert(views(out@) =~= before + files_of(children.take(i + 1)).filter(p));
            }
            i += 1;
        }
        assert(children.take(i as int) =~= children);
    } else {
        proof {
            reveal_with_fuel(Seq::filter, 2);
            assert(seq![node@].drop_last() =~= Seq::<NodeView>::empty());
        }
        if Category::classify(node.name.as_str()) == category {
            out.push(node);
            assert(views(out@) =~= before + seq![node@].filter(p));
        } else {
            assert(views(out@) =~= before + seq![node@].filter(p));
        }
    }
}

/// The sum of some totals.
pub open spec fn sum_totals(s: Seq<(Category, u64)>) -> nat
    decreases s.len(),
{
    if s.len() == 0 {
        0
    } else {
        sum_totals(s.drop_last()) + s.last().1 as nat
    }
}

proof fn lemma_sum_totals_add(a: Seq<(Category, u64)>, b: Seq<(Category, u64)>)
    ensures
        sum_totals(a + b) == sum_totals(a) + sum_totals(b),
    decreases b.len(),
{
    if b.len() == 0 {
        assert(a + b =~= a);
    } else {
        lemma_sum_totals_add(a, b.drop_last());
        assert((a + b).drop_last() =~= a + b.drop_last());
    }
}

proof fn lemma_sum_totals_permutation(a: Seq<(Category, u64)>, b: Seq<(Category, u64)>)
    requires
        a.to_multiset() == b.to_multiset(),
    ensures
        sum_totals(a) == sum_totals(b),
    decreases a.len(),
{
    broadcast use vstd::seq_lib::group_to_multiset_ensures;

    assert(a.len() == a.to_multiset().len() && b.len() == b.to_multiset().len());
    if a.len() > 0 {
        let x = a.last();
        let front = a.drop_last();
        assert(a =~= front.push(x));
        assert(b.contains(x)) by {
            assert(a.contains(x));
            assert(a.to_multiset().count(x) > 0);
        }
        let k = choose|k: int| 0 <= k < b.len() && b[k] == x;
        let rest = b.remove(k);
        assert(front.to_multiset() =~= rest.to_multiset());
        lemma_sum_totals_permutation(front, rest);
        assert(b =~= b.take(k).push(x) + b.skip(k + 1));
        assert(rest =~= b.take(k) + b.skip(k + 1));
        lemma_sum_totals_add(b.take(k).push(x), b.skip(k + 1));
        lemma_sum_totals_add(b.take(k), b.skip(k + 1));
        assert(b.take(k).push(x).drop_last() =~= b.take(k));
    }
}

proof fn lemma_sum_of_used(s: Seq<(Category, u64)>)
    ensures
        sum_totals(s.filter(|total: (Category, u64)| total.1 > 0)) == sum_totals(s),
    decreases s.len(),
{
    reveal(Seq::filter);
    let p = |total: (Category, u64)| total.1 > 0;
    if s.len() > 0 {
        let front = s.drop_last();
        lemma_sum_of_used(front);
        assert(front.filter(p).push(s.last()).drop_last() =~= front.filter(p));
    }
}

/// The bytes of all categories together.
spec fn bytes_in_all(s: Seq<NodeView>) -> nat {
    bytes_in(s, Category::Videos) + bytes_in(s, Category::Audio) + bytes_in(s, Category::Images) + bytes_in(
        s,
        Category::Documents,
    ) + bytes_in(s, Category::Archives) + bytes_in(s, Category::Code) + bytes_in(s, Category::Applications)
        + bytes_in(s, Category::Other)
}

proof fn lemma_bytes_in_all(s: Seq<NodeView>)
    ensures
        bytes_in_all(s) == sum_sizes(s),
    decreases s.len(),
{
    if s.len() == 0 {
        reveal(Seq::filter);
        assert forall|c: Category| #[trigger] bytes_in(s, c) == 0 by {}
    } else {
        let front = s.drop_last();
        let one = seq![s.last()];
        lemma_bytes_in_all(front);
        assert(s =~= front + one);
        assert forall|c: Category|
            #[trigger] bytes_in(s, c) == bytes_in(front, c) + (if category_of(s.last().name) == c {
                s.last().size as nat
            } else {
                0
            }) by {
            lemma_bytes_add(front, one, c);
            lemma_bytes_of_one(s.last(), c);
        }
    }
}

/// No category has more bytes than all files together.
pub proof fn lemma_bytes_at_most_all(s: Seq<NodeView>, category: Category)
    ensures
        bytes_in(s, category) <= sum_sizes(s),
{
    lemma_bytes_in_all(s);
}

/// A tree whose sizes agree can be totalled: no category has more bytes than the
/// tree.
pub proof fn consistent_trees_can_be_totalled(root: NodeView)
    requires
        consistent(root),
    ensures
        forall|c: Category| #[trigger] bytes_in(files(root), c) <= root.size,
{
    files_make_up_the_size(root);
    assert forall|c: Category| #[trigger] bytes_in(files(root), c) <= root.size by {
        lemma_bytes_at_most_all(files(root), c);
    }
}

/// Nothing is counted twice and nothing is left out: the totals of the categories
/// make up the sizes of all files, and in a tree whose sizes agree they make up the
/// size of the tree.
pub proof fn totals_make_up_the_size(root: NodeView)
    requires
        forall|c: Category| #[trigger] bytes_in(files(root), c) <= u64::MAX,
    ensures
        sum_totals(sorted_stably(used_categories(root), total_le())) == sum_sizes(files(root)),
        consistent(root) ==> sum_totals(sorted_stably(used_categories(root), total_le())) == root.size,
{
    let used = used_categories(root);
    let all = tally(root);
    <(Category, u64) as Ranked>::rank_is_total();
    stable_sort_exists(used, total_le());
    lemma_sum_totals_permutation(sorted_stably(used, total_le()), used);
    lemma_sum_of_used(all);
    lemma_bytes_in_all(files(root));
    reveal_with_fuel(sum_totals, 9);
    assert(all.len() == 8);
    assert forall|i: int| 0 <= i < 8 implies (#[trigger] all[i]).1 == bytes_in(files(root), Category::ALL@[i]) by {
        assert(bytes_in(files(root), Category::ALL@[i]) <= u64::MAX);
    }
    assert(sum_totals(all) == all[0].1 + all[1].1 + all[2].1 + all[3].1 + all[4].1 + all[5].1 + all[6].1 + all[7].1);
    if consistent(root) {
        files_make_up_the_size(root);
    }
}

/// Every category that has any bytes is listed, once, with its bytes, and no other
/// is.
pub proof fn totals_list_each_used_category_once(root: NodeView, category: Category, bytes: u64)
    requires
        forall|c: Category| #[trigger] bytes_in(files(root), c) <= u64::MAX,
    ensures
        ({
            let totals = sorted_stably(used_categories(root), total_le());
            &&& totals.contains((category, bytes)) <==> bytes > 0 && bytes == bytes_in(files(root), category)
            &&& forall|i: int, j: int|
                0 <= i < j < totals.len() ==> (#[trigger] totals[i]).0 != (#[trigger] totals[j]).0
        }),
{
    broadcast use vstd::seq_lib::group_to_multiset_ensures;

    let used = used_categories(root);
    let all = tally(root);
    let totals = sorted_stably(used, total_le());
    let p = |total: (Category, u64)| total.1 > 0;
    let x = (category, bytes);
    <(Category, u64) as Ranked>::rank_is_total();
    stable_sort_exists(used, total_le());
    assert forall|y: (Category, u64)| totals.contains(y) <==> used.contains(y) by {
        assert(totals.contains(y) <==> totals.to_multiset().count(y) > 0);
        assert(used.contains(y) <==> used.to_multiset().count(y) > 0);
    }
    assert forall|i: int| 0 <= i < 8 implies (#[trigger] all[i]).1 == bytes_in(files(root), all[i].0) by {
        assert(bytes_in(files(root), Category::ALL@[i]) <= u64::MAX);
    }
    assert(used.contains(x) <==> all.contains(x) && p(x)) by {
        if used.contains(x) {
            all.lemma_filter_contains_rev(p, x);
            let k = choose|k: int| 0 <= k < used.len() && used[k] == x;
            all.lemma_filter_pred(p, k);
        }
        if all.contains(x) && p(x) {
            let k = choose|k: int| 0 <= k < all.len() && all[k] == x;
            all.lemma_filter_contains(p, k);
        }
    }
    let at = place_of(category);
    lemma_category_at(category);
    assert(all[at].0 == category);
    if bytes == bytes_in(files(root), category) {
        assert(all[at] == x);
    }
    // No category twice: not in the tally, so not in the used ones, so not in any
    // order of them.
    assert(all.no_duplicates()) by {
        assert forall|i: int, j: int| 0 <= i < all.len() && 0 <= j < all.len() && i != j implies all[i] != all[j] by {
            lemma_places(i);
            lemma_places(j);
        }
    }
    assert forall|y: (Category, u64)| #[trigger] totals.contains(y) implies all.contains(y) by {
        assert(used.contains(y));
        all.lemma_filter_contains_rev(p, y);
    }
    lemma_filter_no_duplicates(all, p);
    used.lemma_multiset_has_no_duplicates();
    totals.lemma_multiset_has_no_duplicates_conv();
    assert forall|i: int, j: int| 0 <= i < j < totals.len() implies (#[trigger] totals[i]).0 != (#[trigger] totals[j]).0 by {
        assert(totals.contains(totals[i]) && totals.contains(totals[j]));
        let a = choose|k: int| 0 <= k < all.len() && all[k] == totals[i];
        let b = choose|k: int| 0 <= k < all.len() && all[k] == totals[j];
        lemma_places(a);
        lemma_places(b);
        assert(totals[i] != totals[j]);
    }
}

proof fn lemma_category_at(category: Category)
    ensures
        0 <= place_of(category) < Category::ALL@.len(),
        Category::ALL@[place_of(category)] == category,
{
}

proof fn lemma_filter_no_duplicates<T>(s: Seq<T>, p: spec_fn(T) -> bool)
    requires
        s.no_duplicates(),
    ensures
        s.filter(p).no_duplicates(),
    decreases s.len(),
{
    reveal(Seq::filter);
    if s.len() > 0 {
        let front = s.drop_last();
        lemma_filter_no_duplicates(front, p);
        if front.filter(p).contains(s.last()) {
            front.lemma_filter_contains_rev(p, s.last());
        }
    }
}

/// The largest files really are: what is listed belongs to the category and comes
/// largest first, there are as many as asked for if there are so many, and no file
/// of the category that was left out is larger than one that is listed.
pub proof fn largest_files_are_listed(root: NodeView, category: Category, limit: usize)
    ensures
        ({
            let all = files_in(root, category);
            let sorted = sorted_stably(all, node_le());
            let top = at_most(sorted, limit as int);
            let rest = sorted.skip(top.len() as int);
            &&& top.len() == (if limit <= all.len() {
                limit as nat
            } else {
                all.len()
            })
            &&& (top + rest).to_multiset() == all.to_multiset()
            &&& forall|i: int|
                0 <= i < top.len() ==> files(root).contains(#[trigger] top[i]) && category_of(top[i].name) == category
            &&& forall|i: int, j: int|
                0 <= i <= j < top.len() ==> (#[trigger] top[i]).size >= (#[trigger] top[j]).size
            &&& forall|i: int, j: int|
                0 <= i < top.len() && 0 <= j < rest.len() ==> (#[trigger] top[i]).size >= (#[trigger] rest[j]).size
        }),
{
    broadcast use vstd::seq_lib::group_to_multiset_ensures;

    let p = belongs_to(category);
    let all = files_in(root, category);
    let sorted = sorted_stably(all, node_le());
    let top = at_most(sorted, limit as int);
    let rest = sorted.skip(top.len() as int);
    node_order_is_total();
    stable_sort_exists(all, node_le());
    assert(sorted.len() == all.len()) by {
        assert(sorted.to_multiset().len() == all.to_multiset().len());
    }
    assert(top + rest =~= sorted);
    assert forall|i: int| 0 <= i < top.len() implies files(root).contains(#[trigger] top[i]) && category_of(
        top[i].name,
    ) == category by {
        assert(sorted.contains(sorted[i]));
        assert(all.contains(top[i])) by {
            assert(sorted.to_multiset().count(top[i]) > 0);
        }
        files(root).lemma_filter_contains_rev(p, top[i]);
        let k = choose|k: int| 0 <= k < all.len() && all[k] == top[i];
        files(root).lemma_filter_pred(p, k);
    }
    assert forall|i: int, j: int| 0 <= i <= j < sorted.len() implies (#[trigger] sorted[i]).size >= (
    #[trigger] sorted[j]).size by {
        let le = node_le();
        assert(le(sorted[i], sorted[j]));
    }
    assert forall|i: int, j: int| 0 <= i < top.len() && 0 <= j < rest.len() implies (#[trigger] top[i]).size >= (
    #[trigger] rest[j]).size by {
        assert(rest[j] == sorted[top.len() + j]);
        assert(top[i] == sorted[i]);
    }
}

/// Upper and lower case do not matter to the category of a name.
pub proof fn case_does_not_matter(a: Seq<char>, b: Seq<char>)
    requires
        a.map_values(|c: char| ascii_lower(c)) == b.map_values(|c: char| ascii_lower(c)),
    ensures
        category_of(a) == category_of(b),
{
    let lower = |c: char| ascii_lower(c);
    let la = a.map_values(lower);
    let lb = b.map_values(lower);
    assert(a.len() == la.len() && b.len() == lb.len());
    assert forall|i: int| 0 <= i < a.len() implies (#[trigger] a[i] == '.' <==> b[i] == '.') by {
        assert(la[i] == lb[i]);
        assert(la[i] == ascii_lower(a[i]) && lb[i] == ascii_lower(b[i]));
    }
    a.index_of_last_ensures('.');
    b.index_of_last_ensures('.');
    match (a.index_of_last('.'), b.index_of_last('.')) {
        (Some(i), Some(j)) => {
            assert(a[j] == '.' && b[i] == '.');
            assert(i == j);
            assert(a.skip(i + 1).map_values(lower) =~= la.skip(i + 1));
            assert(b.skip(i + 1).map_values(lower) =~= lb.skip(i + 1));
        },
        (Some(i), None) => {
            assert(b[i] == '.');
        },
        (None, Some(j)) => {
            assert(a[j] == '.');
        },
        (None, None) => {},
    }
}

/// A name without a dot, or with none but a leading one, belongs to
/// [`Category::Other`].
pub proof fn names_without_extension_are_other(name: Seq<char>)
    requires
        forall|i: int| 0 < i < name.len() ==> name[i] != '.',
    ensures
        category_of(name) == Category::Other,
{
    name.index_of_last_ensures('.');
}

} // verus!
