//! Find space that can be reclaimed **without losing important files**.
//!
//! Two sources, both safe by construction:
//! - **System safe spots** — regenerable locations under the user's home: the
//!   Trash (already-discarded files) and the cache directory (`~/.cache`, which
//!   apps rebuild on demand). See [`system_spots`].
//! - **Project artifacts** — build outputs and downloaded dependencies found
//!   *inside the scanned tree* (`node_modules`, Rust `target/`, `__pycache__`,
//!   …). These are reproducible from source. See [`find_artifacts`].
use vstd::prelude::*;
use vstd::string::*;
use vstd::utf8::encode_utf8;

use crate::navigate::{extends_by_one, listing_nests, scanned_paths_nest};
use crate::notes::{
    BROWSER, BUILD, FONTS, GO_BUILD, GRADLE, JETBRAINS, MEDIA, NODE_MODULES, PACKAGES, PIP,
    PLAYWRIGHT, PYCACHE, SEARCH_INDEX, SHADERS, TARGET, THUMBNAILS, TOOLING, TOOL_CACHE, TOX,
    TRASH, UNKNOWN_CACHE,
};
use crate::order::{merge_sort, sorted_stably, stable_sort_exists, total_preorder, views, Ranked};
use crate::path::{components, file_name, joined, path_le, path_order_is_total, EntryPath};
use crate::scan::{
    leaf_metas, scan, scanned, scanned_len, scans_are_sound, scans_have_a_file_for_every_leaf, Listing, Node,
};
use crate::text::{lossy_text, read_lossy, same_text};
use crate::tree::{
    consistent, files, files_of, forest, lemma_files_of_add, lemma_forest_add, lemma_forest_member, lemma_forest_of_one,
    lemma_in_forest, lemma_node_view, lemma_one_more, lemma_preorder_member, lemma_preorder_transitive, lemma_sum_of_one,
    lemma_sum_sizes_add, preorder, sum_sizes, NodeView,
};

verus! {

/// What kind of reclaimable space an entry represents — drives copy and icons
/// in the UI, and how aggressively it's safe to clear.
#[derive(Debug, Clone, Copy, PartialEq, Eq, Structural)]
pub enum ReclaimKind {
    /// Files already moved to the Trash. Clearing means emptying them for good.
    Trash,
    /// Regenerable application caches (rebuilt automatically when next needed).
    Cache,
    /// A build output or dependency directory reproducible from project source.
    Artifact,
}

/// The model of a [`Reclaimable`].
#[verifier::ext_equal]
pub struct ReclaimableView {
    pub label: Seq<char>,
    pub path: Seq<u8>,
    pub size: u64,
    pub file_count: u64,
    pub kind: ReclaimKind,
}

/// One location whose contents can be cleared to free space safely.
#[derive(Debug, PartialEq, Eq)]
pub struct Reclaimable {
    /// Human-readable description (e.g. "Node.js packages").
    pub label: String,
    /// The directory to clear.
    pub path: EntryPath,
    /// Recovered bytes (recursive size of `path`).
    pub size: u64,
    /// Number of files inside `path` — the "blast radius" count shown before a
    /// deletion so the user can gauge impact.
    pub file_count: u64,
    /// Which kind of safe-to-clear space this is.
    pub kind: ReclaimKind,
}

impl View for Reclaimable {
    type V = ReclaimableView;

    open spec fn view(&self) -> ReclaimableView {
        ReclaimableView {
            label: self.label@,
            path: self.path@,
            size: self.size,
            file_count: self.file_count,
            kind: self.kind,
        }
    }
}

impl Clone for Reclaimable {
    fn clone(&self) -> (copy: Reclaimable)
        ensures
            copy@ == self@,
    {
        Reclaimable {
            label: self.label.clone(),
            path: self.path.clone(),
            size: self.size,
            file_count: self.file_count,
            kind: self.kind,
        }
    }
}

/// How risky it is to delete an entry — the headline of its blast radius.
#[derive(Debug, Clone, Copy, PartialEq, Eq, Structural)]
pub enum Risk {
    /// Rebuilt automatically with no action and nothing lost.
    Safe,
    /// Nothing important is lost, but you must rebuild/re-fetch it (often needing
    /// a network connection or a build step) before that workflow works again.
    Rebuild,
    /// Unrecognised or potentially state-bearing — verify before deleting.
    Caution,
}

/// The badge of a risk.
pub open spec fn risk_word(risk: Risk) -> Seq<char> {
    match risk {
        Risk::Safe => "Safe"@,
        Risk::Rebuild => "Rebuilds"@,
        Risk::Caution => "Caution"@,
    }
}

/// A single word: at least one character, and nothing but letters.
pub open spec fn is_one_word(s: Seq<char>) -> bool {
    s.len() > 0 && forall|i: int| 0 <= i < s.len() ==> 'a' <= #[trigger] s[i] <= 'z' || 'A' <= s[i] <= 'Z'
}

/// The badges are single words, and different risks have different ones.
pub proof fn badges_are_distinct_words(a: Risk, b: Risk)
    ensures
        is_one_word(risk_word(a)),
        risk_word(a) == risk_word(b) <==> a == b,
{
    reveal_strlit("Safe");
    reveal_strlit("Rebuilds");
    reveal_strlit("Caution");
    assert("Safe"@.len() == 4 && "Rebuilds"@.len() == 8 && "Caution"@.len() == 7);
}

impl Risk {
    /// A one-word badge for the UI.
    pub fn word(self) -> (word: &'static str)
        ensures
            word@ == risk_word(self),
            is_one_word(word@),
    {
        proof {
            badges_are_distinct_words(self, self);
        }
        match self {
            Risk::Safe => "Safe",
            Risk::Rebuild => "Rebuilds",
            Risk::Caution => "Caution",
        }
    }
}

/// The model of a [`Consequence`].
pub struct Impact {
    pub risk: Risk,
    pub summary: Seq<char>,
}

/// The blast radius of deleting an entry: how risky, and what actually happens —
/// what breaks, what rebuilds, and what is *not* affected.
#[derive(Debug, PartialEq, Eq)]
pub struct Consequence {
    pub risk: Risk,
    /// One plain-language sentence on the impact.
    pub summary: String,
}

impl View for Consequence {
    type V = Impact;

    open spec fn view(&self) -> Impact {
        Impact { risk: self.risk, summary: self.summary@ }
    }
}

impl Clone for Consequence {
    fn clone(&self) -> (copy: Consequence)
        ensures
            copy@ == self@,
    {
        Consequence { risk: self.risk, summary: self.summary.clone() }
    }
}

/// What deleting a cache of that name means.
pub open spec fn cache_impact(name: Seq<char>) -> Impact {
    if name == "google-chrome"@ || name == "chromium"@ || name == "BraveSoftware"@
        || name == "microsoft-edge"@ || name == "vivaldi"@ || name == "mozilla"@ {
        Impact { risk: Risk::Safe, summary: BROWSER@ }
    } else if name == "thumbnails"@ {
        Impact { risk: Risk::Safe, summary: THUMBNAILS@ }
    } else if name == "tracker3"@ || name == "tracker"@ {
        Impact { risk: Risk::Safe, summary: SEARCH_INDEX@ }
    } else if name == "fontconfig"@ {
        Impact { risk: Risk::Safe, summary: FONTS@ }
    } else if name == "mesa_shader_cache"@ || name == "mesa_shader_cache_db"@
        || name == "radv_builtin_shaders"@ || name == "nvidia"@ {
        Impact { risk: Risk::Safe, summary: SHADERS@ }
    } else if name == "go-build"@ {
        Impact { risk: Risk::Safe, summary: GO_BUILD@ }
    } else if name == "pip"@ {
        Impact { risk: Risk::Rebuild, summary: PIP@ }
    } else if name == "yarn"@ || name == "node-gyp"@ {
        Impact { risk: Risk::Rebuild, summary: PACKAGES@ }
    } else if name == "ms-playwright"@ {
        Impact { risk: Risk::Rebuild, summary: PLAYWRIGHT@ }
    } else if name == "JetBrains"@ {
        Impact { risk: Risk::Rebuild, summary: JETBRAINS@ }
    } else if name == "spotify"@ || name == "vlc"@ || name == "gstreamer-1.0"@ {
        Impact { risk: Risk::Safe, summary: MEDIA@ }
    } else {
        Impact { risk: Risk::Caution, summary: UNKNOWN_CACHE@ }
    }
}

/// What deleting a project artifact of that name means.
pub open spec fn artifact_impact(name: Seq<char>) -> Impact {
    if name == "node_modules"@ {
        Impact { risk: Risk::Rebuild, summary: NODE_MODULES@ }
    } else if name == "target"@ {
        Impact { risk: Risk::Rebuild, summary: TARGET@ }
    } else if name == "__pycache__"@ {
        Impact { risk: Risk::Safe, summary: PYCACHE@ }
    } else if name == ".pytest_cache"@ || name == ".mypy_cache"@ || name == ".ruff_cache"@ {
        Impact { risk: Risk::Safe, summary: TOOL_CACHE@ }
    } else if name == ".gradle"@ {
        Impact { risk: Risk::Rebuild, summary: GRADLE@ }
    } else if name == ".tox"@ {
        Impact { risk: Risk::Rebuild, summary: TOX@ }
    } else if name == ".next"@ || name == ".nuxt"@ || name == ".svelte-kit"@ || name == ".turbo"@
        || name == ".parcel-cache"@ || name == "build"@ || name == "dist"@ {
        Impact { risk: Risk::Rebuild, summary: BUILD@ }
    } else {
        Impact { risk: Risk::Rebuild, summary: TOOLING@ }
    }
}

/// What deleting something of a kind and a name means.
pub open spec fn impact(kind: ReclaimKind, name: Seq<char>) -> Impact {
    match kind {
        ReclaimKind::Trash => Impact { risk: Risk::Safe, summary: TRASH@ },
        ReclaimKind::Cache => cache_impact(name),
        ReclaimKind::Artifact => artifact_impact(name),
    }
}

/// The name that a path ends in, as text; empty where there is none.
pub open spec fn name_text(path: Seq<u8>) -> Seq<char> {
    match file_name(path) {
        Some(name) => lossy_text(name),
        None => Seq::empty(),
    }
}

/// Describe what deleting `item` will do — the "what breaks" assessment shown to
/// the user before they decide. Keyed off the entry's kind and directory name.
pub fn consequence(item: &Reclaimable) -> (consequence: Consequence)
    ensures
        consequence@ == impact(item.kind, name_text(item.path@)),
{
    let name = match item.path.file_name() {
        Some(bytes) => read_lossy(bytes),
        None => String::new(),
    };
    consequence_for(item.kind, name.as_str())
}

/// What deleting something of a kind and a directory name will do.
pub fn consequence_for(kind: ReclaimKind, name: &str) -> (consequence: Consequence)
    ensures
        consequence@ == impact(kind, name@),
{
    match kind {
        ReclaimKind::Trash => consequence_of(Risk::Safe, TRASH),
        ReclaimKind::Cache => cache_consequence(name),
        ReclaimKind::Artifact => artifact_consequence(name),
    }
}

fn consequence_of(risk: Risk, summary: &str) -> (consequence: Consequence)
    ensures
        consequence@ == (Impact { risk, summary: summary@ }),
{
    Consequence { risk, summary: String::from_str(summary) }
}

fn cache_consequence(name: &str) -> (consequence: Consequence)
    ensures
        consequence@ == cache_impact(name@),
{
    if same_text(name, "google-chrome") || same_text(name, "chromium")
        || same_text(name, "BraveSoftware") || same_text(name, "microsoft-edge")
        || same_text(name, "vivaldi") || same_text(name, "mozilla") {
        consequence_of(Risk::Safe, BROWSER)
    } else if same_text(name, "thumbnails") {
        consequence_of(Risk::Safe, THUMBNAILS)
    } else if same_text(name, "tracker3") || same_text(name, "tracker") {
        consequence_of(Risk::Safe, SEARCH_INDEX)
    } else if same_text(name, "fontconfig") {
        consequence_of(Risk::Safe, FONTS)
    } else if same_text(name, "mesa_shader_cache") || same_text(name, "mesa_shader_cache_db")
        || same_text(name, "radv_builtin_shaders") || same_text(name, "nvidia") {
        consequence_of(Risk::Safe, SHADERS)
    } else if same_text(name, "go-build") {
        consequence_of(Risk::Safe, GO_BUILD)
    } else if same_text(name, "pip") {
        consequence_of(Risk::Rebuild, PIP)
    } else if same_text(name, "yarn") || same_text(name, "node-gyp") {
        consequence_of(Risk::Rebuild, PACKAGES)
    } else if same_text(name, "ms-playwright") {
        consequence_of(Risk::Rebuild, PLAYWRIGHT)
    } else if same_text(name, "JetBrains") {
        consequence_of(Risk::Rebuild, JETBRAINS)
    } else if same_text(name, "spotify") || same_text(name, "vlc") || same_text(name, "gstreamer-1.0") {
        consequence_of(Risk::Safe, MEDIA)
    } else {
        consequence_of(Risk::Caution, UNKNOWN_CACHE)
    }
}

fn artifact_consequence(name: &str) -> (consequence: Consequence)
    ensures
        consequence@ == artifact_impact(name@),
{
    if same_text(name, "node_modules") {
        consequence_of(Risk::Rebuild, NODE_MODULES)
    } else if same_text(name, "target") {
        consequence_of(Risk::Rebuild, TARGET)
    } else if same_text(name, "__pycache__") {
        consequence_of(Risk::Safe, PYCACHE)
    } else if same_text(name, ".pytest_cache") || same_text(name, ".mypy_cache")
        || same_text(name, ".ruff_cache") {
        consequence_of(Risk::Safe, TOOL_CACHE)
    } else if same_text(name, ".gradle") {
        consequence_of(Risk::Rebuild, GRADLE)
    } else if same_text(name, ".tox") {
        consequence_of(Risk::Rebuild, TOX)
    } else if same_text(name, ".next") || same_text(name, ".nuxt") || same_text(name, ".svelte-kit")
        || same_text(name, ".turbo") || same_text(name, ".parcel-cache")
        || same_text(name, "build") || same_text(name, "dist") {
        consequence_of(Risk::Rebuild, BUILD)
    } else {
        consequence_of(Risk::Rebuild, TOOLING)
    }
}

/// The model of a [`SystemSpot`].
pub struct SpotView {
    pub label: Seq<char>,
    pub path: Seq<u8>,
    pub kind: ReclaimKind,
}

/// A candidate system location, before its size is measured.
#[derive(Debug, PartialEq, Eq)]
pub struct SystemSpot {
    pub label: &'static str,
    pub path: EntryPath,
    pub kind: ReclaimKind,
}

impl View for SystemSpot {
    type V = SpotView;

    open spec fn view(&self) -> SpotView {
        SpotView { label: self.label@, path: self.path@, kind: self.kind }
    }
}

impl Clone for SystemSpot {
    fn clone(&self) -> (copy: SystemSpot)
        ensures
            copy@ == self@,
    {
        SystemSpot { label: self.label, path: self.path.clone(), kind: self.kind }
    }
}

/// The Trash under a home directory.
pub open spec fn trash_of(home: Seq<u8>) -> SpotView {
    SpotView {
        label: "Trash"@,
        path: joined(home, encode_utf8(".local/share/Trash"@)),
        kind: ReclaimKind::Trash,
    }
}

/// The cache directory under a home directory.
pub open spec fn caches_of(home: Seq<u8>) -> SpotView {
    SpotView { label: "Application caches"@, path: joined(home, encode_utf8(".cache"@)), kind: ReclaimKind::Cache }
}

/// The known-safe system locations under `home`, whether they exist or not: the Trash
/// and the cache directory, in the XDG defaults (`~/.local/share/Trash`, `~/.cache`).
pub fn candidate_spots(home: &EntryPath) -> (spots: Vec<SystemSpot>)
    ensures
        views(spots@) == seq![trash_of(home@), caches_of(home@)],
{
    let mut spots: Vec<SystemSpot> = Vec::new();
    spots.push(
        SystemSpot { label: "Trash", path: home.join(".local/share/Trash"), kind: ReclaimKind::Trash },
    );
    spots.push(
        SystemSpot { label: "Application caches", path: home.join(".cache"), kind: ReclaimKind::Cache },
    );
    assert(views(spots@) =~= seq![trash_of(home@), caches_of(home@)]);
    spots
}

/// The spots of which it is said that they exist.
pub open spec fn existing(spots: Seq<SpotView>, exist: Seq<bool>) -> Seq<SpotView>
    decreases spots.len(),
{
    if spots.len() == 0 {
        Seq::empty()
    } else {
        let front = existing(spots.drop_last(), exist);
        if exist[spots.len() - 1] {
            front.push(spots.last())
        } else {
            front
        }
    }
}

/// The known-safe system locations under `home` that currently **exist**: `exist`
/// says of each of the [`candidate_spots`] whether it is a directory.
///
/// Non-existent spots are omitted so callers never offer to clear something that
/// isn't there.
pub fn system_spots(home: &EntryPath, exist: &[bool]) -> (spots: Vec<SystemSpot>)
    requires
        exist@.len() == 2,
    ensures
        views(spots@) == existing(seq![trash_of(home@), caches_of(home@)], exist@),
{
    let candidates = candidate_spots(home);
    let ghost all = views(candidates@);
    let mut spots: Vec<SystemSpot> = Vec::new();
    let mut i: usize = 0;
    assert(all.len() == 2);
    assert(views(spots@) =~= existing(all.take(0), exist@));
    while i < candidates.len()
        invariant
            i <= candidates@.len(),
            exist@.len() == candidates@.len(),
            all == views(candidates@),
            views(spots@) == existing(all.take(i as int), exist@),
        decreases candidates@.len() - i,
    {
        let ghost before = views(spots@);
        proof {
            assert(all.take(i + 1).drop_last() =~= all.take(i as int));
        }
        if exist[i] {
            spots.push(candidates[i].clone());
            assert(views(spots@) =~= before.push(all[i as int]));
        }
        i += 1;
    }
    assert(all.take(i as int) =~= all);
    spots
}

/// Count the files (leaf entries) within an already-scanned node — recursive for
/// directories, 1 for a file or symlink. Pure, in-memory; no extra I/O.
pub fn count_files(node: &Node) -> (count: u64)
    requires
        files(node@).len() <= u64::MAX,
    ensures
        count == files(node@).len(),
    decreases node,
{
    let ghost children = node@.children;
    proof {
        lemma_node_view(*node);
    }
    if node.is_dir {
        let mut count: u64 = 0;
        let mut i: usize = 0;
        assert(children.take(0) =~= Seq::<NodeView>::empty());
        while i < node.children.len()
            invariant
                i <= node.children@.len(),
                children == views(node.children@),
                files_of(children).len() <= u64::MAX,
                count == files_of(children.take(i as int)).len(),
            decreases node.children@.len() - i,
        {
            proof {
                lemma_one_more(children, i as int);
                assert(children[i as int] == node.children@[i as int]@);
                assert(children =~= children.take(i + 1) + children.skip(i + 1));
                lemma_files_of_add(children.take(i + 1), children.skip(i + 1));
            }
            count = count + count_files(&node.children[i]);
            i += 1;
        }
        assert(children.take(i as int) =~= children);
        count
    } else {
        1
    }
}

/// The entry for a whole spot, from the tree of its contents where they can be read.
pub open spec fn measured(spot: SpotView, contents: Option<Listing>) -> ReclaimableView {
    ReclaimableView {
        label: spot.label,
        path: spot.path,
        size: match contents {
            Some(l) => scanned(l@).size,
            None => 0,
        },
        file_count: match contents {
            Some(l) => files(scanned(l@)).len() as u64,
            None => 0,
        },
        kind: spot.kind,
    }
}

/// The contents of a spot can be scanned and their files counted.
pub open spec fn fits(contents: Option<Listing>) -> bool {
    contents matches Some(l) ==> scanned_len(l@) <= u64::MAX && leaf_metas(l@).len() <= u64::MAX
}

proof fn lemma_files_fit(contents: Option<Listing>)
    requires
        fits(contents),
    ensures
        contents matches Some(l) ==> files(scanned(l@)).len() <= u64::MAX,
{
    if let Some(l) = contents {
        scans_have_a_file_for_every_leaf(l@);
    }
}

/// Measure a system spot by scanning what a walk has read of it, yielding a single
/// [`Reclaimable`] for the whole spot. An empty or unreadable spot reports size 0.
pub fn measure(spot: &SystemSpot, contents: Option<Listing>) -> (entry: Reclaimable)
    requires
        fits(contents),
    ensures
        entry@ == measured(spot@, contents),
{
    proof {
        lemma_files_fit(contents);
    }
    let (size, file_count): (u64, u64) = match scan(contents) {
        Ok(node) => (node.size, count_files(&node)),
        Err(_) => (0, 0),
    };
    Reclaimable {
        label: String::from_str(spot.label),
        path: spot.path.clone(),
        size,
        file_count,
        kind: spot.kind,
    }
}

/// The entry for one application's cache.
pub open spec fn cache_entry(child: NodeView) -> ReclaimableView {
    ReclaimableView {
        label: cache_name(child.name),
        path: child.path,
        size: child.size,
        file_count: files(child).len() as u64,
        kind: ReclaimKind::Cache,
    }
}

/// The order of entries: largest first, and by path where sizes are equal.
pub open spec fn reclaim_le() -> spec_fn(ReclaimableView, ReclaimableView) -> bool {
    |a: ReclaimableView, b: ReclaimableView| a.size > b.size || (a.size == b.size && path_le(a.path, b.path))
}

/// The order of entries is total.
pub proof fn reclaim_order_is_total()
    ensures
        total_preorder(reclaim_le()),
{
    path_order_is_total();
    let le = reclaim_le();
    assert forall|a: ReclaimableView, b: ReclaimableView| #[trigger] le(a, b) || le(b, a) by {
        assert(path_le(a.path, b.path) || path_le(b.path, a.path));
    }
    assert forall|a: ReclaimableView, b: ReclaimableView, c: ReclaimableView|
        #[trigger] le(a, b) && #[trigger] le(b, c) implies le(a, c) by {
        if a.size == b.size && b.size == c.size {
            assert(path_le(a.path, b.path) && path_le(b.path, c.path));
        }
    }
}

impl Ranked for Reclaimable {
    open spec fn rank_le() -> spec_fn(ReclaimableView, ReclaimableView) -> bool {
        reclaim_le()
    }

    proof fn rank_is_total() {
        reclaim_order_is_total();
    }

    fn may_precede(&self, other: &Reclaimable) -> (le: bool) {
        self.size > other.size || (self.size == other.size && self.path.may_precede(&other.path))
    }
}

/// The entries for the applications whose caches a directory holds.
pub open spec fn cache_entries(caches: NodeView) -> Seq<ReclaimableView> {
    caches.children.map_values(|child: NodeView| cache_entry(child))
}

/// The entries into which a spot is broken down.
pub open spec fn broken_down(spot: SpotView, contents: Option<Listing>) -> Seq<ReclaimableView> {
    if spot.kind != ReclaimKind::Cache {
        seq![measured(spot, contents)]
    } else {
        match contents {
            Some(l) => sorted_stably(cache_entries(scanned(l@)), reclaim_le()),
            None => Seq::empty(),
        }
    }
}

/// Break a system spot into the entries actually offered to the user.
///
/// The cache directory is **never** offered as one giant item — deleting all of
/// `~/.cache` at once is a foot-gun that can disrupt running apps. Instead it is
/// split into one entry **per application** (its immediate sub-entries), each
/// labelled with a friendly name where known, so the user clears caches
/// selectively and can see exactly which app each one belongs to. Other spots
/// (the Trash) stay as a single entry. Largest entries first.
pub fn breakdown(spot: &SystemSpot, contents: Option<Listing>) -> (entries: Vec<Reclaimable>)
    requires
        fits(contents),
    ensures
        views(entries@) == broken_down(spot@, contents),
{
    proof {
        lemma_files_fit(contents);
    }
    if spot.kind != ReclaimKind::Cache {
        let mut entries: Vec<Reclaimable> = Vec::new();
        entries.push(measure(spot, contents));
        assert(views(entries@) =~= seq![measured(spot@, contents)]);
        return entries;
    }
    match scan(contents) {
        Ok(node) => {
            let mut entries: Vec<Reclaimable> = Vec::new();
            let ghost children = node@.children;
            let ghost all = cache_entries(node@);
            let mut i: usize = 0;
            proof {
                lemma_node_view(node);
                lemma_children_files(node@);
            }
            while i < node.children.len()
                invariant
                    i <= node.children@.len(),
                    children == node@.children,
                    children == views(node.children@),
                    all == cache_entries(node@),
                    forall|k: int| 0 <= k < children.len() ==> files(#[trigger] children[k]).len() <= u64::MAX,
                    views(entries@) == all.take(i as int),
                decreases node.children@.len() - i,
            {
                let child = &node.children[i];
                proof {
                    lemma_node_view(*child);
                    assert(children[i as int] == child@);
                }
                let ghost before = views(entries@);
                let entry = Reclaimable {
                    label: cache_label(child.name.as_str()),
                    path: child.path.clone(),
                    size: child.size,
                    file_count: count_files(child),
                    kind: ReclaimKind::Cache,
                };
                assert(entry@ =~= all[i as int]);
                entries.push(entry);
                assert(views(entries@) =~= before.push(entry@));
                assert(all.take(i + 1) =~= all.take(i as int).push(all[i as int]));
                i += 1;
            }
            assert(all.take(i as int) =~= all);
            merge_sort(entries)
        },
        Err(_) => {
            let entries: Vec<Reclaimable> = Vec::new();
            assert(views(entries@) =~= Seq::<ReclaimableView>::empty());
            entries
        },
    }
}

/// No child of a directory has more files than the directory; what is no directory
/// and was scanned has no children.
proof fn lemma_children_files(n: NodeView)
    requires
        files(n).len() <= u64::MAX,
        !n.is_dir ==> n.children.len() == 0,
    ensures
        forall|k: int| 0 <= k < n.children.len() ==> files(#[trigger] n.children[k]).len() <= u64::MAX,
{
    assert forall|k: int| 0 <= k < n.children.len() implies files(#[trigger] n.children[k]).len() <= u64::MAX by {
        lemma_one_more(n.children, k);
        assert(n.children =~= n.children.take(k + 1) + n.children.skip(k + 1));
        lemma_files_of_add(n.children.take(k + 1), n.children.skip(k + 1));
    }
}

/// The name that a `~/.cache` sub-entry is shown under.
pub open spec fn cache_name(name: Seq<char>) -> Seq<char> {
    if name == "google-chrome"@ {
        "Google Chrome cache"@
    } else if name == "chromium"@ {
        "Chromium cache"@
    } else if name == "BraveSoftware"@ {
        "Brave cache"@
    } else if name == "microsoft-edge"@ {
        "Microsoft Edge cache"@
    } else if name == "vivaldi"@ {
        "Vivaldi cache"@
    } else if name == "mozilla"@ {
        "Firefox cache"@
    } else if name == "thumbnails"@ {
        "Thumbnail previews"@
    } else if name == "tracker3"@ || name == "tracker"@ {
        "File-search index"@
    } else if name == "fontconfig"@ {
        "Font cache"@
    } else if name == "mesa_shader_cache"@ || name == "mesa_shader_cache_db"@ {
        "GPU shader cache"@
    } else if name == "nvidia"@ {
        "NVIDIA shader cache"@
    } else if name == "pip"@ {
        "pip download cache"@
    } else if name == "go-build"@ {
        "Go build cache"@
    } else if name == "yarn"@ {
        "Yarn package cache"@
    } else if name == "node-gyp"@ {
        "node-gyp cache"@
    } else if name == "ms-playwright"@ {
        "Playwright browsers cache"@
    } else if name == "JetBrains"@ {
        "JetBrains IDE cache"@
    } else if name == "spotify"@ {
        "Spotify cache"@
    } else if name == "vlc"@ {
        "VLC cache"@
    } else if name == "gstreamer-1.0"@ {
        "GStreamer plugin cache"@
    } else if name == "winetricks"@ {
        "Winetricks cache"@
    } else {
        name
    }
}

/// A friendly name for a `~/.cache` sub-entry, so the user recognises which app
/// a cache belongs to. Unknown entries keep their raw directory name.
pub fn cache_label(name: &str) -> (label: String)
    ensures
        label@ == cache_name(name@),
{
    let friendly: &str =
if same_text(name, "google-chrome") {
            "Google Chrome cache"
        } else if same_text(name, "chromium") {
            "Chromium cache"
        } else if same_text(name, "BraveSoftware") {
            "Brave cache"
        } else if same_text(name, "microsoft-edge") {
            "Microsoft Edge cache"
        } else if same_text(name, "vivaldi") {
            "Vivaldi cache"
        } else if same_text(name, "mozilla") {
            "Firefox cache"
        } else if same_text(name, "thumbnails") {
            "Thumbnail previews"
        } else if same_text(name, "tracker3") || same_text(name, "tracker") {
            "File-search index"
        } else if same_text(name, "fontconfig") {
            "Font cache"
        } else if same_text(name, "mesa_shader_cache") || same_text(name, "mesa_shader_cache_db") {
            "GPU shader cache"
        } else if same_text(name, "nvidia") {
            "NVIDIA shader cache"
        } else if same_text(name, "pip") {
            "pip download cache"
        } else if same_text(name, "go-build") {
            "Go build cache"
        } else if same_text(name, "yarn") {
            "Yarn package cache"
        } else if same_text(name, "node-gyp") {
            "node-gyp cache"
        } else if same_text(name, "ms-playwright") {
            "Playwright browsers cache"
        } else if same_text(name, "JetBrains") {
            "JetBrains IDE cache"
        } else if same_text(name, "spotify") {
            "Spotify cache"
        } else if same_text(name, "vlc") {
            "VLC cache"
        } else if same_text(name, "gstreamer-1.0") {
            "GStreamer plugin cache"
        } else if same_text(name, "winetricks") {
            "Winetricks cache"
        } else {
            name
        };
    String::from_str(friendly)
}

/// One of the nodes has the name.
pub open spec fn named(nodes: Seq<NodeView>, name: Seq<char>) -> bool {
    exists|i: int| 0 <= i < nodes.len() && (#[trigger] nodes[i]).name == name
}

/// The label of a directory that is a regenerable project artifact, by its name and
/// the nodes beside it.
pub open spec fn artifact_name(name: Seq<char>, siblings: Seq<NodeView>) -> Option<Seq<char>> {
    if name == "node_modules"@ {
        Some("Node.js packages"@)
    } else if name == "__pycache__"@ {
        Some("Python bytecode cache"@)
    } else if name == ".pytest_cache"@ {
        Some("pytest cache"@)
    } else if name == ".mypy_cache"@ {
        Some("mypy cache"@)
    } else if name == ".ruff_cache"@ {
        Some("Ruff cache"@)
    } else if name == ".gradle"@ {
        Some("Gradle cache"@)
    } else if name == ".tox"@ {
        Some("tox environments"@)
    } else if name == ".next"@ {
        Some("Next.js build"@)
    } else if name == ".nuxt"@ {
        Some("Nuxt build"@)
    } else if name == ".svelte-kit"@ {
        Some("SvelteKit build"@)
    } else if name == ".turbo"@ {
        Some("Turbo cache"@)
    } else if name == ".parcel-cache"@ {
        Some("Parcel cache"@)
    } else if name == "target"@ && named(siblings, "Cargo.toml"@) {
        Some("Rust build output"@)
    } else if (name == "build"@ || name == "dist"@) && named(siblings, "package.json"@) {
        Some("Build output"@)
    } else {
        None
    }
}

/// Recognise a directory as a regenerable project artifact, returning a label.
///
/// Unambiguous, tool-specific names match on their own. Generic names that could
/// plausibly be real user folders (`target`, `build`, `dist`) only match when a
/// sibling marker file proves they belong to a known build tool.
pub fn artifact_label(name: &str, siblings: &[Node]) -> (label: Option<&'static str>)
    ensures
        match label {
            Some(l) => artifact_name(name@, views(siblings@)) == Some(l@),
            None => artifact_name(name@, views(siblings@)) is None,
        },
{
    if same_text(name, "node_modules") {
        Some("Node.js packages")
    } else if same_text(name, "__pycache__") {
        Some("Python bytecode cache")
    } else if same_text(name, ".pytest_cache") {
        Some("pytest cache")
    } else if same_text(name, ".mypy_cache") {
        Some("mypy cache")
    } else if same_text(name, ".ruff_cache") {
        Some("Ruff cache")
    } else if same_text(name, ".gradle") {
        Some("Gradle cache")
    } else if same_text(name, ".tox") {
        Some("tox environments")
    } else if same_text(name, ".next") {
        Some("Next.js build")
    } else if same_text(name, ".nuxt") {
        Some("Nuxt build")
    } else if same_text(name, ".svelte-kit") {
        Some("SvelteKit build")
    } else if same_text(name, ".turbo") {
        Some("Turbo cache")
    } else if same_text(name, ".parcel-cache") {
        Some("Parcel cache")
    } else if same_text(name, "target") && has_sibling(siblings, "Cargo.toml") {
        Some("Rust build output")
    } else if (same_text(name, "build") || same_text(name, "dist")) && has_sibling(siblings, "package.json") {
        Some("Build output")
    } else {
        None
    }
}

fn has_sibling(siblings: &[Node], name: &str) -> (found: bool)
    ensures
        found == named(views(siblings@), name@),
{
    let ghost all = views(siblings@);
    let mut i: usize = 0;
    while i < siblings.len()
        invariant
            i <= siblings@.len(),
            all == views(siblings@),
            forall|k: int| 0 <= k < i ==> (#[trigger] all[k]).name != name@,
        decreases siblings@.len() - i,
    {
        proof {
            lemma_node_view(siblings@[i as int]);
            assert(all[i as int] == siblings@[i as int]@);
        }
        if same_text(siblings[i].name.as_str(), name) {
            return true;
        }
        i += 1;
    }
    false
}

/// The outermost project artifacts below a directory, each with its label: what is
/// inside an artifact is not looked at.
pub open spec fn artifact_nodes(dir: NodeView) -> Seq<(Seq<char>, NodeView)>
    decreases dir,
{
    artifacts_among(dir.children, dir.children)
}

/// The outermost project artifacts among some of the children of a directory, and
/// below them.
pub open spec fn artifacts_among(s: Seq<NodeView>, siblings: Seq<NodeView>) -> Seq<(Seq<char>, NodeView)>
    decreases s,
{
    if s.len() == 0 {
        Seq::empty()
    } else {
        artifacts_among(s.drop_last(), siblings) + if !s.last().is_dir {
            Seq::empty()
        } else {
            match artifact_name(s.last().name, siblings) {
                Some(label) => seq![(label, s.last())],
                None => artifact_nodes(s.last()),
            }
        }
    }
}

/// The entry for an artifact.
pub open spec fn artifact_entry(artifact: (Seq<char>, NodeView)) -> ReclaimableView {
    ReclaimableView {
        label: artifact.0,
        path: artifact.1.path,
        size: artifact.1.size,
        file_count: files(artifact.1).len() as u64,
        kind: ReclaimKind::Artifact,
    }
}

/// The entries for the outermost artifacts below a directory.
pub open spec fn artifacts(dir: NodeView) -> Seq<ReclaimableView> {
    artifact_nodes(dir).map_values(|a: (Seq<char>, NodeView)| artifact_entry(a))
}

/// Find regenerable build/dependency directories within an already-scanned tree.
///
/// Walks `root`, and whenever it recognises a directory as a project artifact it
/// records it and does **not** descend further — so a `node_modules` nested
/// inside another is counted once, via its top-most parent. Results are sorted
/// largest-first.
pub fn find_artifacts(root: &Node) -> (found: Vec<Reclaimable>)
    requires
        files_of(root@.children).len() <= u64::MAX,
    ensures
        views(found@) == sorted_stably(artifacts(root@), reclaim_le()),
{
    let mut out: Vec<Reclaimable> = Vec::new();
    collect_artifacts(root, &mut out);
    assert(views(out@) =~= artifacts(root@));
    merge_sort(out)
}

proof fn lemma_one_more_artifact(s: Seq<NodeView>, siblings: Seq<NodeView>, i: int)
    requires
        0 <= i < s.len(),
    ensures
        artifacts_among(s.take(i + 1), siblings) == artifacts_among(s.take(i), siblings) + if !s[i].is_dir {
            Seq::empty()
        } else {
            match artifact_name(s[i].name, siblings) {
                Some(label) => seq![(label, s[i])],
                None => artifact_nodes(s[i]),
            }
        },
{
    let t = s.take(i + 1);
    assert(t.drop_last() =~= s.take(i));
    assert(t.last() == s[i]);
}

fn collect_artifacts(dir: &Node, out: &mut Vec<Reclaimable>)
    requires
        files_of(dir@.children).len() <= u64::MAX,
    ensures
        views(final(out)@) == views(old(out)@) + artifacts(dir@),
    decreases dir,
{
    let ghost before = views(out@);
    let ghost children = dir@.children;
    let ghost entry = |a: (Seq<char>, NodeView)| artifact_entry(a);
    proof {
        lemma_node_view(*dir);
        assert(children.take(0) =~= Seq::<NodeView>::empty());
    }
    let mut i: usize = 0;
    assert(views(out@) =~= before + artifacts_among(children.take(0), children).map_values(entry));
    while i < dir.children.len()
        invariant
            i <= dir.children@.len(),
            children == dir@.children,
            children == views(dir.children@),
            files_of(children).len() <= u64::MAX,
            entry == |a: (Seq<char>, NodeView)| artifact_entry(a),
            views(out@) == before + artifacts_among(children.take(i as int), children).map_values(entry),
        decreases dir.children@.len() - i,
    {
        let child = &dir.children[i];
        let ghost so_far = artifacts_among(children.take(i as int), children);
        let ghost so_far_out = views(out@);
        proof {
            lemma_node_view(*child);
            assert(children[i as int] == child@);
            lemma_one_more_artifact(children, children, i as int);
            lemma_one_more(children, i as int);
            assert(children =~= children.take(i + 1) + children.skip(i + 1));
            lemma_files_of_add(children.take(i + 1), children.skip(i + 1));
        }
        if child.is_dir {
            match artifact_label(child.name.as_str(), dir.children.as_slice()) {
                Some(label) => {
                    let found = Reclaimable {
                        label: String::from_str(label),
                        path: child.path.clone(),
                        size: child.size,
                        file_count: count_files(child),
                        kind: ReclaimKind::Artifact,
                    };
                    assert(found@ =~= artifact_entry((label@, child@)));
                    out.push(found);
                    proof {
                        let now = so_far + seq![(label@, child@)];
                        assert(now.map_values(entry) =~= so_far.map_values(entry).push(found@));
                        assert(views(out@) =~= so_far_out.push(found@));
                        assert(views(out@) =~= before + now.map_values(entry));
                    }
                },
                None => {
                    collect_artifacts(child, out);
                    proof {
                        let now = so_far + artifact_nodes(child@);
                        assert(now.map_values(entry) =~= so_far.map_values(entry) + artifacts(child@));
                        assert(views(out@) =~= before + now.map_values(entry));
                    }
                },
            }
        } else {
            assert(so_far + Seq::<(Seq<char>, NodeView)>::empty() =~= so_far);
        }
        i += 1;
    }
    assert(children.take(i as int) =~= children);
}

/// The directories that were recognised, without their labels.
pub open spec fn unlabelled(found: Seq<(Seq<char>, NodeView)>) -> Seq<NodeView> {
    found.map_values(|a: (Seq<char>, NodeView)| a.1)
}

proof fn lemma_unlabelled_add(a: Seq<(Seq<char>, NodeView)>, b: Seq<(Seq<char>, NodeView)>)
    ensures
        unlabelled(a + b) == unlabelled(a) + unlabelled(b),
{
    assert(unlabelled(a + b) =~= unlabelled(a) + unlabelled(b));
}

/// Artifacts do not overlap: whatever is inside one of them is inside that one only,
/// so no node of the tree is offered twice.
pub proof fn artifacts_do_not_overlap(dir: NodeView)
    ensures
        forest(unlabelled(artifact_nodes(dir))).to_multiset().subset_of(forest(dir.children).to_multiset()),
    decreases dir, 1nat,
{
    lemma_artifacts_among_do_not_overlap(dir.children, dir.children);
}

proof fn lemma_artifacts_among_do_not_overlap(s: Seq<NodeView>, siblings: Seq<NodeView>)
    ensures
        forest(unlabelled(artifacts_among(s, siblings))).to_multiset().subset_of(forest(s).to_multiset()),
    decreases s, 0nat,
{
    broadcast use vstd::seq_lib::group_to_multiset_ensures;

    if s.len() == 0 {
        assert(unlabelled(artifacts_among(s, siblings)) =~= Seq::<NodeView>::empty());
    } else {
        let front = s.drop_last();
        let last = s.last();
        let found = artifacts_among(front, siblings);
        lemma_artifacts_among_do_not_overlap(front, siblings);
        vstd::seq_lib::lemma_multiset_commutative(forest(front), preorder(last));
        if !last.is_dir {
            assert(artifacts_among(s, siblings) =~= found);
        } else {
            match artifact_name(last.name, siblings) {
                Some(label) => {
                    let one = seq![(label, last)];
                    lemma_unlabelled_add(found, one);
                    assert(unlabelled(one) =~= seq![last]);
                    lemma_forest_add(unlabelled(found), seq![last]);
                    lemma_forest_of_one(last);
                    vstd::seq_lib::lemma_multiset_commutative(forest(unlabelled(found)), preorder(last));
                },
                None => {
                    let below = artifact_nodes(last);
                    artifacts_do_not_overlap(last);
                    lemma_unlabelled_add(found, below);
                    lemma_forest_add(unlabelled(found), unlabelled(below));
                    vstd::seq_lib::lemma_multiset_commutative(forest(unlabelled(found)), forest(unlabelled(below)));
                    vstd::seq_lib::lemma_multiset_commutative(seq![last], forest(last.children));
                },
            }
        }
    }
}

/// Clearing every artifact frees no more than the tree holds: in a tree whose sizes
/// agree, the artifacts' sizes add up to at most the size of the root.
pub proof fn artifacts_fit_in_the_tree(dir: NodeView)
    requires
        consistent(dir),
    ensures
        sum_sizes(unlabelled(artifact_nodes(dir))) <= dir.size,
    decreases dir, 1nat,
{
    lemma_artifacts_among_fit(dir.children, dir.children);
}

proof fn lemma_artifacts_among_fit(s: Seq<NodeView>, siblings: Seq<NodeView>)
    requires
        forall|i: int| 0 <= i < s.len() ==> consistent(#[trigger] s[i]),
    ensures
        sum_sizes(unlabelled(artifacts_among(s, siblings))) <= sum_sizes(s),
    decreases s, 0nat,
{
    if s.len() == 0 {
        assert(unlabelled(artifacts_among(s, siblings)) =~= Seq::<NodeView>::empty());
    } else {
        let front = s.drop_last();
        let last = s.last();
        let found = artifacts_among(front, siblings);
        assert forall|i: int| 0 <= i < front.len() implies consistent(#[trigger] front[i]) by {
            assert(front[i] == s[i]);
        }
        assert(consistent(s[s.len() - 1]));
        lemma_artifacts_among_fit(front, siblings);
        if !last.is_dir {
            assert(artifacts_among(s, siblings) =~= found);
        } else {
            match artifact_name(last.name, siblings) {
                Some(label) => {
                    let one = seq![(label, last)];
                    lemma_unlabelled_add(found, one);
                    assert(unlabelled(one) =~= seq![last]);
                    lemma_sum_sizes_add(unlabelled(found), seq![last]);
                    lemma_sum_of_one(last);
                },
                None => {
                    let below = artifact_nodes(last);
                    artifacts_fit_in_the_tree(last);
                    lemma_unlabelled_add(found, below);
                    lemma_sum_sizes_add(unlabelled(found), unlabelled(below));
                },
            }
        }
    }
}

/// `node` is a directory in the tree that is recognised, with that label, by its name
/// and the nodes beside it.
pub open spec fn recognised(root: NodeView, label: Seq<char>, node: NodeView) -> bool {
    exists|d: NodeView| #[trigger]
        preorder(root).contains(d) && d.children.contains(node) && node.is_dir && artifact_name(node.name, d.children)
            == Some(label)
}

/// Nothing is offered but artifacts: whatever is found is a directory in the tree
/// that is recognised beside its siblings. In particular a `target`, `build` or
/// `dist` without the marker file beside it is never found.
pub proof fn only_artifacts_are_found(root: NodeView, k: int)
    requires
        0 <= k < artifact_nodes(root).len(),
    ensures
        recognised(root, artifact_nodes(root)[k].0, artifact_nodes(root)[k].1),
    decreases root, 1nat,
{
    assert(root.children.take(root.children.len() as int) =~= root.children);
    lemma_only_artifacts_among(root, root.children.len() as int, k);
}

proof fn lemma_only_artifacts_among(root: NodeView, n: int, k: int)
    requires
        0 <= n <= root.children.len(),
        0 <= k < artifacts_among(root.children.take(n), root.children).len(),
    ensures
        ({
            let found = artifacts_among(root.children.take(n), root.children);
            recognised(root, found[k].0, found[k].1)
        }),
    decreases root, 0nat, n,
{
    let c = root.children;
    if n > 0 {
        lemma_one_more_artifact(c, c, n - 1);
        let before = artifacts_among(c.take(n - 1), c);
        let found = artifacts_among(c.take(n), c);
        let last = c[n - 1];
        if k < before.len() {
            lemma_only_artifacts_among(root, n - 1, k);
        } else {
            match artifact_name(last.name, c) {
                Some(label) => {
                    assert(found[k] == (label, last));
                    lemma_preorder_member(root, root);
                    assert(c.contains(last));
                },
                None => {
                    let below = artifact_nodes(last);
                    assert(found[k] == below[k - before.len()]);
                    only_artifacts_are_found(last, k - before.len());
                    let d = choose|d: NodeView| #[trigger]
                        preorder(last).contains(d) && d.children.contains(found[k].1) && found[k].1.is_dir
                            && artifact_name(found[k].1.name, d.children) == Some(found[k].0);
                    lemma_in_forest(c, n - 1, d);
                    lemma_preorder_member(root, d);
                },
            }
        }
    }
}

/// No artifact is missed: a directory that is recognised beside its siblings, however
/// deep in the tree, is found itself or lies inside one that is found.
pub proof fn no_artifact_is_missed(root: NodeView, label: Seq<char>, node: NodeView)
    requires
        consistent(root),
        recognised(root, label, node),
    ensures
        forest(unlabelled(artifact_nodes(root))).contains(node),
    decreases root,
{
    let c = root.children;
    let d = choose|d: NodeView| #[trigger]
        preorder(root).contains(d) && d.children.contains(node) && node.is_dir && artifact_name(node.name, d.children)
            == Some(label);
    lemma_preorder_member(root, d);
    if d == root {
        let i = choose|i: int| 0 <= i < c.len() && c[i] == node;
        lemma_found_child(c, c, i);
        lemma_in_unlabelled(artifact_nodes(root), (label, node), node);
    } else {
        let j = lemma_forest_member(c, d);
        assert(consistent(c[j]));
        lemma_preorder_member(c[j], d);
        if c[j].is_dir {
            lemma_found_child(c, c, j);
            let m = choose|m: int| 0 <= m < d.children.len() && d.children[m] == node;
            lemma_in_forest(d.children, m, node);
            lemma_preorder_member(d, node);
            lemma_preorder_transitive(c[j], d, node);
            match artifact_name(c[j].name, c) {
                Some(l) => {
                    lemma_in_unlabelled(artifact_nodes(root), (l, c[j]), node);
                },
                None => {
                    no_artifact_is_missed(c[j], label, node);
                    let below = artifact_nodes(c[j]);
                    let k = lemma_forest_member(unlabelled(below), node);
                    assert(below.contains(below[k]));
                    lemma_in_unlabelled(artifact_nodes(root), below[k], node);
                },
            }
        } else {
            assert(c[j].children.len() == 0);
            assert(forest(c[j].children).len() == 0);
            assert(false);
        }
    }
}

proof fn lemma_in_unlabelled(found: Seq<(Seq<char>, NodeView)>, a: (Seq<char>, NodeView), x: NodeView)
    requires
        found.contains(a),
        preorder(a.1).contains(x) || x == a.1,
    ensures
        forest(unlabelled(found)).contains(x),
{
    let k = choose|k: int| 0 <= k < found.len() && found[k] == a;
    assert(unlabelled(found)[k] == a.1);
    lemma_in_forest(unlabelled(found), k, x);
}

/// What a child contributes is among what is found.
proof fn lemma_found_child(s: Seq<NodeView>, siblings: Seq<NodeView>, i: int)
    requires
        0 <= i < s.len(),
        s[i].is_dir,
    ensures
        match artifact_name(s[i].name, siblings) {
            Some(label) => artifacts_among(s, siblings).contains((label, s[i])),
            None => forall|a: (Seq<char>, NodeView)|
                #[trigger] artifact_nodes(s[i]).contains(a) ==> artifacts_among(s, siblings).contains(a),
        },
    decreases s.len(),
{
    let front = s.drop_last();
    let found = artifacts_among(front, siblings);
    let all = artifacts_among(s, siblings);
    if i < front.len() {
        assert(front[i] == s[i]);
        lemma_found_child(front, siblings, i);
        assert forall|a: (Seq<char>, NodeView)| #[trigger] found.contains(a) implies all.contains(a) by {
            let k = choose|k: int| 0 <= k < found.len() && found[k] == a;
            assert(all[k] == a);
        }
    } else {
        match artifact_name(s[i].name, siblings) {
            Some(label) => {
                assert(all[found.len() as int] == (label, s[i]));
            },
            None => {
                let below = artifact_nodes(s[i]);
                assert forall|a: (Seq<char>, NodeView)| #[trigger] below.contains(a) implies all.contains(a) by {
                    let k = choose|k: int| 0 <= k < below.len() && below[k] == a;
                    assert(all[found.len() + k] == a);
                }
            },
        }
    }
}

/// Entries are offered largest first, and sorting neither drops nor invents any.
pub proof fn entries_come_largest_first(entries: Seq<ReclaimableView>)
    ensures
        sorted_stably(entries, reclaim_le()).to_multiset() == entries.to_multiset(),
        forall|i: int, j: int|
            0 <= i <= j < sorted_stably(entries, reclaim_le()).len() ==> (#[trigger] sorted_stably(
                entries,
                reclaim_le(),
            )[i]).size >= (#[trigger] sorted_stably(entries, reclaim_le())[j]).size,
{
    reclaim_order_is_total();
    stable_sort_exists(entries, reclaim_le());
    let r = sorted_stably(entries, reclaim_le());
    assert forall|i: int, j: int| 0 <= i <= j < r.len() implies (#[trigger] r[i]).size >= (#[trigger] r[j]).size by {
        let le = reclaim_le();
        assert(le(r[i], r[j]));
    }
}

/// The bytes that some entries free together.
pub open spec fn sum_reclaimed(s: Seq<ReclaimableView>) -> nat
    decreases s.len(),
{
    if s.len() == 0 {
        0
    } else {
        sum_reclaimed(s.drop_last()) + s.last().size as nat
    }
}

/// The files that some entries hold together.
pub open spec fn sum_file_counts(s: Seq<ReclaimableView>) -> nat
    decreases s.len(),
{
    if s.len() == 0 {
        0
    } else {
        sum_file_counts(s.drop_last()) + s.last().file_count as nat
    }
}

/// The sums of two lists add up.
pub proof fn lemma_reclaimed_add(a: Seq<ReclaimableView>, b: Seq<ReclaimableView>)
    ensures
        sum_reclaimed(a + b) == sum_reclaimed(a) + sum_reclaimed(b),
        sum_file_counts(a + b) == sum_file_counts(a) + sum_file_counts(b),
    decreases b.len(),
{
    if b.len() == 0 {
        assert(a + b =~= a);
    } else {
        lemma_reclaimed_add(a, b.drop_last());
        assert((a + b).drop_last() =~= a + b.drop_last());
    }
}

proof fn lemma_reclaimed_permutation(a: Seq<ReclaimableView>, b: Seq<ReclaimableView>)
    requires
        a.to_multiset() == b.to_multiset(),
    ensures
        sum_reclaimed(a) == sum_reclaimed(b),
        sum_file_counts(a) == sum_file_counts(b),
    decreases a.len(),
{
    broadcast use vstd::seq_lib::group_to_multiset_ensures;

    assert(a.len() == a.to_multiset().len() && b.len() == b.to_multiset().len());
    if a.len() > 0 {
        let x = a.last();
        let front = a.drop_last();
        assert(a =~= front.push(x));
        assert(b.contains(x)) by {
            assert(a.contains(x));
            assert(a.to_multiset().count(x) > 0);
        }
        let k = choose|k: int| 0 <= k < b.len() && b[k] == x;
        let rest = b.remove(k);
        assert(front.to_multiset() =~= rest.to_multiset());
        lemma_reclaimed_permutation(front, rest);
        assert(b =~= b.take(k).push(x) + b.skip(k + 1));
        assert(rest =~= b.take(k) + b.skip(k + 1));
        lemma_reclaimed_add(b.take(k).push(x), b.skip(k + 1));
        lemma_reclaimed_add(b.take(k), b.skip(k + 1));
        assert(b.take(k).push(x).drop_last() =~= b.take(k));
    }
}

proof fn lemma_cache_entries_sum(s: Seq<NodeView>)
    requires
        files_of(s).len() <= u64::MAX,
    ensures
        sum_reclaimed(s.map_values(|child: NodeView| cache_entry(child))) == sum_sizes(s),
        sum_file_counts(s.map_values(|child: NodeView| cache_entry(child))) == files_of(s).len(),
    decreases s.len(),
{
    let entry = |child: NodeView| cache_entry(child);
    if s.len() > 0 {
        lemma_cache_entries_sum(s.drop_last());
        assert(s.map_values(entry).drop_last() =~= s.drop_last().map_values(entry));
    }
}

/// The cache directory is offered application by application, and nothing of it is
/// left out: there is one entry for each of its sub-entries, all of them caches, and
/// together they hold the bytes and the files of the whole directory. Where the paths
/// that were read follow the shape of the directory, none of the entries is the
/// directory itself.
pub proof fn breakdown_accounts_for_every_cache(spot: SpotView, contents: Listing)
    requires
        spot.kind == ReclaimKind::Cache,
        contents@.meta.is_dir,
        fits(Some(contents)),
    ensures
        ({
            let entries = broken_down(spot, Some(contents));
            let whole = measured(spot, Some(contents));
            &&& entries.len() == scanned(contents@).children.len()
            &&& sum_reclaimed(entries) == whole.size
            &&& sum_file_counts(entries) == whole.file_count
            &&& forall|i: int| 0 <= i < entries.len() ==> (#[trigger] entries[i]).kind == ReclaimKind::Cache
            &&& listing_nests(contents@) && components(contents@.path) == components(spot.path) ==> forall|i: int|
                0 <= i < entries.len() ==> components((#[trigger] entries[i]).path) != components(spot.path)
        }),
{
    broadcast use vstd::seq_lib::group_to_multiset_ensures;

    let tree = scanned(contents@);
    let all = cache_entries(tree);
    let entries = broken_down(spot, Some(contents));
    scans_are_sound(contents@);
    scans_have_a_file_for_every_leaf(contents@);
    entries_come_largest_first(all);
    lemma_reclaimed_permutation(entries, all);
    lemma_cache_entries_sum(tree.children);
    assert(entries.len() == all.len()) by {
        assert(entries.to_multiset().len() == all.to_multiset().len());
    }
    assert forall|i: int| 0 <= i < entries.len() implies (#[trigger] entries[i]).kind == ReclaimKind::Cache by {
        assert(entries.contains(entries[i]));
        assert(entries.to_multiset().count(entries[i]) > 0);
        assert(all.contains(entries[i]));
    }
    if listing_nests(contents@) && components(contents@.path) == components(spot.path) {
        scanned_paths_nest(contents@);
        assert forall|i: int| 0 <= i < entries.len() implies components((#[trigger] entries[i]).path) != components(
            spot.path,
        ) by {
            assert(entries.contains(entries[i]));
            assert(entries.to_multiset().count(entries[i]) > 0);
            assert(all.contains(entries[i]));
            let k = choose|k: int| 0 <= k < all.len() && all[k] == entries[i];
            assert(extends_by_one(components(tree.children[k].path), components(tree.path)));
        }
    }
}

/// Generic names need a marker beside them: a `target` is an artifact exactly where a
/// `Cargo.toml` stands beside it, and a `build` or `dist` where a `package.json` does.
pub proof fn generic_names_need_a_marker(siblings: Seq<NodeView>)
    ensures
        artifact_name("target"@, siblings) is Some <==> named(siblings, "Cargo.toml"@),
        artifact_name("build"@, siblings) is Some <==> named(siblings, "package.json"@),
        artifact_name("dist"@, siblings) is Some <==> named(siblings, "package.json"@),
{
    reveal_strlit("target");
    reveal_strlit("build");
    reveal_strlit("dist");
    reveal_strlit("node_modules");
    reveal_strlit("__pycache__");
    reveal_strlit(".pytest_cache");
    reveal_strlit(".mypy_cache");
    reveal_strlit(".ruff_cache");
    reveal_strlit(".gradle");
    reveal_strlit(".tox");
    reveal_strlit(".next");
    reveal_strlit(".nuxt");
    reveal_strlit(".svelte-kit");
    reveal_strlit(".turbo");
    reveal_strlit(".parcel-cache");
    assert("target"@[0] == 't' && "build"@[0] == 'b' && "dist"@[0] == 'd');
    assert("node_modules"@[0] == 'n' && "__pycache__"@[0] == '_');
    assert(".pytest_cache"@[0] == '.' && ".mypy_cache"@[0] == '.' && ".ruff_cache"@[0] == '.' && ".gradle"@[0] == '.');
    assert(".tox"@[0] == '.' && ".next"@[0] == '.' && ".nuxt"@[0] == '.' && ".svelte-kit"@[0] == '.');
    assert(".turbo"@[0] == '.' && ".parcel-cache"@[0] == '.');
}

/// Only a cache that is not recognised calls for checking first: the Trash and
/// project artifacts never do.
pub proof fn only_caches_call_for_caution(kind: ReclaimKind, name: Seq<char>)
    ensures
        impact(kind, name).risk == Risk::Caution ==> kind == ReclaimKind::Cache && impact(kind, name).summary
            == UNKNOWN_CACHE@,
        kind == ReclaimKind::Trash ==> impact(kind, name).risk == Risk::Safe,
{
}

} // verus!
