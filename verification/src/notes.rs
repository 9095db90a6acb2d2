//! What deleting something that can be regenerated means, in one plain-language
//! sentence each: what breaks, what rebuilds, and what is not affected.
use vstd::prelude::*;

verus! {

/// Browser caches.
pub const BROWSER: &'static str = "The browser re-downloads cached web content as you browse. Bookmarks, history, \
    passwords and open tabs live elsewhere and are not touched.";

/// Thumbnail previews.
pub const THUMBNAILS: &'static str = "Thumbnails regenerate automatically as you open folders; file managers are \
    briefly slower the first time.";

/// The file-search index.
pub const SEARCH_INDEX: &'static str = "The file-search index rebuilds in the background; searches may be incomplete \
    for a short while.";

/// The font cache.
pub const FONTS: &'static str = "Rebuilt automatically the next time an application loads fonts.";

/// Compiled shaders.
pub const SHADERS: &'static str = "Games and GPU apps recompile shaders on next launch — the first run is slower, \
    then performance returns to normal.";

/// Go's build cache.
pub const GO_BUILD: &'static str = "Go recompiles from source on your next build — slower once, no downloads.";

/// pip's downloads.
pub const PIP: &'static str = "pip re-downloads packages the next time you install something (needs \
    internet). Already-installed environments keep working.";

/// Downloaded Node.js packages and headers.
pub const PACKAGES: &'static str = "Re-downloaded the next time you install packages (needs internet); installed \
    projects keep working.";

/// Playwright's browsers.
pub const PLAYWRIGHT: &'static str = "Playwright re-downloads its browser binaries on next use (needs internet).";

/// Indexes of JetBrains IDEs.
pub const JETBRAINS: &'static str = "The IDE re-indexes your projects on next launch — the first start is slower; \
    your code and settings are untouched.";

/// Caches of media players.
pub const MEDIA: &'static str = "Re-downloaded or re-streamed as needed; your library and settings stay.";

/// Any other cache.
pub const UNKNOWN_CACHE: &'static str = "Unrecognised cache. Most apps rebuild these automatically, but if it belongs \
    to something you rely on, confirm it still works afterwards.";

/// Installed Node.js packages.
pub const NODE_MODULES: &'static str = "The project won't build or run until you reinstall dependencies (npm install / \
    yarn / pnpm install) — needs internet.";

/// Rust build output.
pub const TARGET: &'static str = "The next `cargo build` recompiles from scratch — slower once, no downloads.";

/// Python bytecode.
pub const PYCACHE: &'static str = "Python regenerates this bytecode automatically on the next run — no impact.";

/// Caches of Python tools.
pub const TOOL_CACHE: &'static str = "Rebuilt automatically the next time you run the tool.";

/// Gradle's caches.
pub const GRADLE: &'static str = "Gradle re-downloads dependencies and rebuilds caches on the next build (needs \
    internet).";

/// tox environments.
pub const TOX: &'static str = "tox recreates its environments on the next run (needs internet).";

/// Build output of web projects.
pub const BUILD: &'static str = "Recreated by your next build or dev run.";

/// Any other build output.
pub const TOOLING: &'static str = "Recreated by your build tooling.";

/// The Trash.
pub const TRASH: &'static str = "Files you already deleted. Emptying frees the space for good; nothing you \
    currently use is affected.";

} // verus!
