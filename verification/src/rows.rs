//! The rows of the lists: file and folder rows, category rows, and reclaimable-entry
//! rows, with their small presentation helpers (icons, risk badge, counts).
use vstd::prelude::*;
use vstd::string::*;

use crate::category::{label_of, Category};
use crate::format::{grouped, human, human_size, thousands};
use crate::order::views;
use crate::path::{parent, strip_prefix, EntryPath};
use crate::reclaim::{consequence, impact, name_text, risk_word, ReclaimKind, Reclaimable, ReclaimableView, Risk};
use crate::scan::{display_name, label_bytes};
use crate::text::{decimal, lossy_text};
use crate::tree::{lemma_node_view, Node, NodeView};

verus! {

/// An action invoked from a row's trailing buttons or right-click menu.
#[derive(Debug, Clone, Copy, PartialEq, Eq, Structural)]
pub enum RowAction {
    /// Open with the desktop's default handler.
    Open,
    /// Reveal in the file manager (open the containing folder, item selected).
    Reveal,
    /// Open a terminal at the item's folder.
    Terminal,
    /// Copy the item's absolute path to the clipboard.
    CopyPath,
    /// Move to Trash (after confirmation).
    Trash,
    /// Permanently delete (after confirmation). Used by the Reclaim view.
    Delete,
}

impl View for RowAction {
    type V = RowAction;

    open spec fn view(&self) -> RowAction {
        *self
    }
}

/// The name of a row action.
pub open spec fn action_name(action: RowAction) -> Seq<char> {
    match action {
        RowAction::Open => "open"@,
        RowAction::Reveal => "reveal"@,
        RowAction::Terminal => "terminal"@,
        RowAction::CopyPath => "copy-path"@,
        RowAction::Trash => "trash"@,
        RowAction::Delete => "delete"@,
    }
}

impl RowAction {
    /// All actions that a row knows.
    pub const ALL: [RowAction; 6] = [
        RowAction::Open,
        RowAction::Reveal,
        RowAction::Terminal,
        RowAction::CopyPath,
        RowAction::Trash,
        RowAction::Delete,
    ];

    /// The name under which a row has the action.
    pub fn name(self) -> (name: &'static str)
        ensures
            name@ == action_name(self),
    {
        match self {
            RowAction::Open => "open",
            RowAction::Reveal => "reveal",
            RowAction::Terminal => "terminal",
            RowAction::CopyPath => "copy-path",
            RowAction::Trash => "trash",
            RowAction::Delete => "delete",
        }
    }
}

/// An item of a right-click menu.
#[derive(Debug, Clone, Copy, PartialEq, Eq)]
pub struct MenuItem {
    pub label: &'static str,
    pub action: RowAction,
}

/// The model of a [`MenuItem`].
pub struct MenuItemView {
    pub label: Seq<char>,
    pub action: RowAction,
}

impl View for MenuItem {
    type V = MenuItemView;

    open spec fn view(&self) -> MenuItemView {
        MenuItemView { label: self.label@, action: self.action }
    }
}

/// The standard file/folder right-click menu; moving to the Trash stands apart, at the
/// end.
pub open spec fn file_menu_of() -> Seq<MenuItemView> {
    seq![
        MenuItemView { label: "Open"@, action: RowAction::Open },
        MenuItemView { label: "Open Containing Folder"@, action: RowAction::Reveal },
        MenuItemView { label: "Open Terminal Here"@, action: RowAction::Terminal },
        MenuItemView { label: "Copy Full Path"@, action: RowAction::CopyPath },
        MenuItemView { label: "Move to Trash"@, action: RowAction::Trash },
    ]
}

/// The standard file/folder right-click menu (Open / Reveal / Terminal / Copy Path /
/// Move to Trash).
pub fn file_menu() -> (items: Vec<MenuItem>)
    ensures
        views(items@) == file_menu_of(),
{
    let mut items: Vec<MenuItem> = Vec::new();
    items.push(MenuItem { label: "Open", action: RowAction::Open });
    items.push(MenuItem { label: "Open Containing Folder", action: RowAction::Reveal });
    items.push(MenuItem { label: "Open Terminal Here", action: RowAction::Terminal });
    items.push(MenuItem { label: "Copy Full Path", action: RowAction::CopyPath });
    items.push(MenuItem { label: "Move to Trash", action: RowAction::Trash });
    assert(views(items@) =~= file_menu_of());
    items
}

/// The right-click menu of a reclaimable entry: opening and revealing, plus both
/// removal modes.
pub open spec fn reclaim_menu_of(kind: ReclaimKind) -> Seq<MenuItemView> {
    seq![
        MenuItemView { label: "Open"@, action: RowAction::Open },
        MenuItemView { label: "Open Containing Folder"@, action: RowAction::Reveal },
        MenuItemView { label: "Copy Full Path"@, action: RowAction::CopyPath },
        MenuItemView { label: "Move to Trash"@, action: RowAction::Trash },
        MenuItemView {
            label: if kind == ReclaimKind::Trash {
                "Empty Trash"@
            } else {
                "Delete Permanently"@
            },
            action: RowAction::Delete,
        },
    ]
}

/// The right-click menu of a reclaimable entry.
pub fn reclaim_menu(kind: ReclaimKind) -> (items: Vec<MenuItem>)
    ensures
        views(items@) == reclaim_menu_of(kind),
{
    let mut items: Vec<MenuItem> = Vec::new();
    items.push(MenuItem { label: "Open", action: RowAction::Open });
    items.push(MenuItem { label: "Open Containing Folder", action: RowAction::Reveal });
    items.push(MenuItem { label: "Copy Full Path", action: RowAction::CopyPath });
    items.push(MenuItem { label: "Move to Trash", action: RowAction::Trash });
    let delete = if kind == ReclaimKind::Trash {
        "Empty Trash"
    } else {
        "Delete Permanently"
    };
    items.push(MenuItem { label: delete, action: RowAction::Delete });
    assert(views(items@) =~= reclaim_menu_of(kind));
    items
}

/// Where a file lives: its parent folder relative to the scanned root, behind the
/// root's name; or the parent's whole path if it lies outside the root.
pub open spec fn location_of(root: Seq<u8>, file: Seq<u8>) -> Seq<char> {
    let up = match parent(file) {
        Some(p) => p,
        None => file,
    };
    match strip_prefix(up, root) {
        None => lossy_text(up),
        Some(rel) => if rel.len() == 0 {
            lossy_text(label_bytes(root))
        } else {
            lossy_text(label_bytes(root)) + "/"@ + lossy_text(rel)
        },
    }
}

/// A short label for where a file lives: its parent folder shown relative to the
/// scanned root (prefixed with the root's name), or the absolute parent path if
/// it lies outside the root.
pub fn file_location(root: &EntryPath, file: &EntryPath) -> (location: String)
    ensures
        location@ == location_of(root@, file@),
{
    let up = match file.parent() {
        Some(p) => p,
        None => file.clone(),
    };
    match up.strip_prefix(root) {
        None => up.to_string_lossy(),
        Some(rel) => {
            let mut location = display_name(root);
            if !rel.is_empty() {
                location.append("/");
                location.append(rel.to_string_lossy().as_str());
            }
            location
        },
    }
}

/// The model of a [`FileRow`].
pub struct FileRowView {
    pub icon: Seq<char>,
    pub name: Seq<char>,
    pub location: Option<Seq<char>>,
    pub bytes: u64,
    pub size: Seq<char>,
    pub path: Seq<u8>,
    pub tooltip: Seq<char>,
    pub opens: bool,
}

/// One file/folder row.
#[derive(Debug)]
pub struct FileRow {
    pub icon: &'static str,
    pub name: String,
    /// "Where it lives", where rows can come from anywhere in the tree.
    pub location: Option<String>,
    pub bytes: u64,
    pub size: String,
    pub path: EntryPath,
    /// The full path answers "where is this?" everywhere.
    pub tooltip: String,
    /// Directories can be drilled into.
    pub opens: bool,
}

/// The model of an optional text.
pub open spec fn text_model(text: Option<String>) -> Option<Seq<char>> {
    match text {
        Some(t) => Some(t@),
        None => None,
    }
}

impl View for FileRow {
    type V = FileRowView;

    open spec fn view(&self) -> FileRowView {
        FileRowView {
            icon: self.icon@,
            name: self.name@,
            location: text_model(self.location),
            bytes: self.bytes,
            size: self.size@,
            path: self.path@,
            tooltip: self.tooltip@,
            opens: self.opens,
        }
    }
}

/// The row for a node.
pub open spec fn file_row_of(node: NodeView, location: Option<Seq<char>>) -> FileRowView {
    FileRowView {
        icon: if node.is_dir {
            "folder-symbolic"@
        } else {
            "text-x-generic-symbolic"@
        },
        name: node.name,
        location,
        bytes: node.size,
        size: human(node.size),
        path: node.path,
        tooltip: lossy_text(node.path),
        opens: node.is_dir,
    }
}

/// One file/folder row: icon, name (optionally over a `location` line), size and path.
pub fn build_row(node: &Node, location: Option<String>) -> (row: FileRow)
    ensures
        row@ == file_row_of(node@, text_model(location)),
{
    proof {
        lemma_node_view(*node);
    }
    FileRow {
        icon: if node.is_dir {
            "folder-symbolic"
        } else {
            "text-x-generic-symbolic"
        },
        name: node.name.clone(),
        location,
        bytes: node.size,
        size: human_size(node.size),
        path: node.path.clone(),
        tooltip: node.path.to_string_lossy(),
        opens: node.is_dir,
    }
}

/// The icon of a category.
pub open spec fn category_icon_of(category: Category) -> Seq<char> {
    match category {
        Category::Videos => "video-x-generic-symbolic"@,
        Category::Audio => "audio-x-generic-symbolic"@,
        Category::Images => "image-x-generic-symbolic"@,
        Category::Documents => "x-office-document-symbolic"@,
        Category::Archives => "package-x-generic-symbolic"@,
        Category::Code => "text-x-script-symbolic"@,
        Category::Applications => "application-x-executable-symbolic"@,
        Category::Other => "application-x-generic-symbolic"@,
    }
}

/// Symbolic icon name for a category.
pub fn category_icon(category: Category) -> (icon: &'static str)
    ensures
        icon@ == category_icon_of(category),
{
    match category {
        Category::Videos => "video-x-generic-symbolic",
        Category::Audio => "audio-x-generic-symbolic",
        Category::Images => "image-x-generic-symbolic",
        Category::Documents => "x-office-document-symbolic",
        Category::Archives => "package-x-generic-symbolic",
        Category::Code => "text-x-script-symbolic",
        Category::Applications => "application-x-executable-symbolic",
        Category::Other => "application-x-generic-symbolic",
    }
}

/// The accent class of a category.
pub open spec fn category_class_of(category: Category) -> Seq<char> {
    match category {
        Category::Videos => "cat-videos"@,
        Category::Audio => "cat-audio"@,
        Category::Images => "cat-images"@,
        Category::Documents => "cat-documents"@,
        Category::Archives => "cat-archives"@,
        Category::Code => "cat-code"@,
        Category::Applications => "cat-applications"@,
        Category::Other => "cat-other"@,
    }
}

/// CSS accent class for a category (sets the icon colour).
pub fn category_css_class(category: Category) -> (class: &'static str)
    ensures
        class@ == category_class_of(category),
{
    match category {
        Category::Videos => "cat-videos",
        Category::Audio => "cat-audio",
        Category::Images => "cat-images",
        Category::Documents => "cat-documents",
        Category::Archives => "cat-archives",
        Category::Code => "cat-code",
        Category::Applications => "cat-applications",
        Category::Other => "cat-other",
    }
}

/// The model of a [`CategoryRow`].
pub struct CategoryRowView {
    pub category: Category,
    pub icon: Seq<char>,
    pub class: Seq<char>,
    pub name: Seq<char>,
    pub bytes: u64,
    pub size: Seq<char>,
}

/// A category row for the overview: accent icon, name, size. It always opens.
#[derive(Debug)]
pub struct CategoryRow {
    pub category: Category,
    pub icon: &'static str,
    pub class: &'static str,
    pub name: &'static str,
    pub bytes: u64,
    pub size: String,
}

impl View for CategoryRow {
    type V = CategoryRowView;

    open spec fn view(&self) -> CategoryRowView {
        CategoryRowView {
            category: self.category,
            icon: self.icon@,
            class: self.class@,
            name: self.name@,
            bytes: self.bytes,
            size: self.size@,
        }
    }
}

/// The row for a category with its bytes.
pub open spec fn category_row_of(total: (Category, u64)) -> CategoryRowView {
    CategoryRowView {
        category: total.0,
        icon: category_icon_of(total.0),
        class: category_class_of(total.0),
        name: label_of(total.0),
        bytes: total.1,
        size: human(total.1),
    }
}

/// A category row for the overview.
pub fn category_row(category: Category, bytes: u64) -> (row: CategoryRow)
    ensures
        row@ == category_row_of((category, bytes)),
{
    CategoryRow {
        category,
        icon: category_icon(category),
        class: category_css_class(category),
        name: category.label(),
        bytes,
        size: human_size(bytes),
    }
}

/// The icon of a kind of reclaimable space.
pub open spec fn reclaim_icon_of(kind: ReclaimKind) -> Seq<char> {
    match kind {
        ReclaimKind::Trash => "user-trash-full-symbolic"@,
        ReclaimKind::Cache => "folder-download-symbolic"@,
        ReclaimKind::Artifact => "folder-symbolic"@,
    }
}

/// Symbolic icon for a reclaimable entry, by kind.
pub fn reclaim_icon(kind: ReclaimKind) -> (icon: &'static str)
    ensures
        icon@ == reclaim_icon_of(kind),
{
    match kind {
        ReclaimKind::Trash => "user-trash-full-symbolic",
        ReclaimKind::Cache => "folder-download-symbolic",
        ReclaimKind::Artifact => "folder-symbolic",
    }
}

/// The accent class of a risk.
pub open spec fn risk_class_of(risk: Risk) -> Seq<char> {
    match risk {
        Risk::Safe => "risk-safe"@,
        Risk::Rebuild => "risk-rebuild"@,
        Risk::Caution => "risk-caution"@,
    }
}

/// CSS accent class for a deletion risk level.
pub fn risk_class(risk: Risk) -> (class: &'static str)
    ensures
        class@ == risk_class_of(risk),
{
    match risk {
        Risk::Safe => "risk-safe",
        Risk::Rebuild => "risk-rebuild",
        Risk::Caution => "risk-caution",
    }
}

/// A count of files in words.
pub open spec fn files_phrase_of(n: u64) -> Seq<char> {
    grouped(decimal(n as nat)) + " "@ + if n == 1 {
        "file"@
    } else {
        "files"@
    }
}

/// "1 file" / "1,234 files" — a grammatical, thousands-grouped count.
pub fn files_phrase(n: u64) -> (phrase: String)
    ensures
        phrase@ == files_phrase_of(n),
{
    let mut phrase = thousands(n);
    phrase.append(" ");
    phrase.append(if n == 1 {
        "file"
    } else {
        "files"
    });
    phrase
}

/// Whether clearing an entry deletes it for good: emptying the Trash is inherently
/// permanent; for the rest the mode decides.
pub open spec fn is_permanent(kind: ReclaimKind, perm: bool) -> bool {
    perm || kind == ReclaimKind::Trash
}

/// The model of a [`ReclaimRow`].
pub struct ReclaimRowView {
    pub selected: bool,
    pub icon: Seq<char>,
    pub label: Seq<char>,
    pub risk: Seq<char>,
    pub risk_class: Seq<char>,
    pub summary: Seq<char>,
    pub size: Seq<char>,
    pub count: Seq<char>,
    pub primary: RowAction,
    pub button_icon: Seq<char>,
    pub button_tooltip: Seq<char>,
    pub destructive: bool,
    pub path: Seq<u8>,
    pub tooltip: Seq<char>,
    pub menu: Seq<MenuItemView>,
}

/// One reclaimable-entry row.
#[derive(Debug)]
pub struct ReclaimRow {
    /// Whether the leading checkbox is ticked.
    pub selected: bool,
    pub icon: &'static str,
    pub label: String,
    /// Blast radius: a risk badge plus what actually breaks if you delete this.
    pub risk: &'static str,
    pub risk_class: &'static str,
    pub summary: String,
    /// Recovered size over the file count.
    pub size: String,
    pub count: String,
    /// The primary clear button.
    pub primary: RowAction,
    pub button_icon: &'static str,
    pub button_tooltip: &'static str,
    pub destructive: bool,
    pub path: EntryPath,
    pub tooltip: String,
    pub menu: Vec<MenuItem>,
}

impl View for ReclaimRow {
    type V = ReclaimRowView;

    open spec fn view(&self) -> ReclaimRowView {
        ReclaimRowView {
            selected: self.selected,
            icon: self.icon@,
            label: self.label@,
            risk: self.risk@,
            risk_class: self.risk_class@,
            summary: self.summary@,
            size: self.size@,
            count: self.count@,
            primary: self.primary,
            button_icon: self.button_icon@,
            button_tooltip: self.button_tooltip@,
            destructive: self.destructive,
            path: self.path@,
            tooltip: self.tooltip@,
            menu: views(self.menu@),
        }
    }
}

/// The row for a reclaimable entry.
pub open spec fn reclaim_row_of(item: ReclaimableView, perm: bool, selected: bool) -> ReclaimRowView {
    let what = impact(item.kind, name_text(item.path));
    let permanent = is_permanent(item.kind, perm);
    ReclaimRowView {
        selected,
        icon: reclaim_icon_of(item.kind),
        label: item.label,
        risk: risk_word(what.risk),
        risk_class: risk_class_of(what.risk),
        summary: what.summary,
        size: human(item.size),
        count: files_phrase_of(item.file_count),
        primary: if permanent {
            RowAction::Delete
        } else {
            RowAction::Trash
        },
        button_icon: if permanent && item.kind != ReclaimKind::Trash {
            "edit-delete-symbolic"@
        } else {
            "user-trash-symbolic"@
        },
        button_tooltip: if item.kind == ReclaimKind::Trash {
            "Empty (delete permanently)"@
        } else if permanent {
            "Delete permanently"@
        } else {
            "Move to Trash"@
        },
        destructive: permanent,
        path: item.path,
        tooltip: lossy_text(item.path),
        menu: reclaim_menu_of(item.kind),
    }
}

/// One reclaimable-entry row: kind icon, label over what removing it means, recovered
/// size, and a primary clear button. Trash is always emptied permanently;
/// caches/artifacts move to Trash by default, or delete permanently when `perm` is
/// set. The right-click menu always offers both Trash and permanent delete.
pub fn reclaim_row(item: &Reclaimable, perm: bool, selected: bool) -> (row: ReclaimRow)
    ensures
        row@ == reclaim_row_of(item@, perm, selected),
{
    let is_trash = item.kind == ReclaimKind::Trash;
    // Emptying the Trash is inherently permanent; for the rest, honour the mode.
    let permanent = is_trash || perm;
    let what = consequence(item);
    let (button_icon, button_tooltip): (&'static str, &'static str) = if is_trash {
        ("user-trash-symbolic", "Empty (delete permanently)")
    } else if permanent {
        ("edit-delete-symbolic", "Delete permanently")
    } else {
        ("user-trash-symbolic", "Move to Trash")
    };
    ReclaimRow {
        selected,
        icon: reclaim_icon(item.kind),
        label: item.label.clone(),
        risk: what.risk.word(),
        risk_class: risk_class(what.risk),
        summary: what.summary,
        size: human_size(item.size),
        count: files_phrase(item.file_count),
        primary: if permanent {
            RowAction::Delete
        } else {
            RowAction::Trash
        },
        button_icon,
        button_tooltip,
        destructive: permanent,
        path: item.path.clone(),
        tooltip: item.path.to_string_lossy(),
        menu: reclaim_menu(item.kind),
    }
}

/// Both removal modes are on offer for every entry, in the menu; the button deletes for
/// good exactly where the mode says so or the entry is the Trash.
pub proof fn removal_actions_fit_the_kind(item: ReclaimableView, perm: bool, selected: bool)
    ensures
        ({
            let row = reclaim_row_of(item, perm, selected);
            let offers = |action: RowAction|
                exists|i: int| 0 <= i < row.menu.len() && (#[trigger] row.menu[i]).action == action;
            &&& offers(RowAction::Trash)
            &&& offers(RowAction::Delete)
            &&& row.primary == RowAction::Delete <==> perm || item.kind == ReclaimKind::Trash
            &&& row.primary == RowAction::Trash <==> !perm && item.kind != ReclaimKind::Trash
            &&& row.destructive <==> row.primary == RowAction::Delete
        }),
{
    let row = reclaim_row_of(item, perm, selected);
    assert(row.menu[3].action == RowAction::Trash);
    assert(row.menu[4].action == RowAction::Delete);
}

} // verus!
