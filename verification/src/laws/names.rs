//! What the names of caches and project artifacts mean.
use vstd::prelude::*;
use vstd::string::*;

use crate::order::views;
use crate::path::file_name;
use crate::reclaim::{
    artifact_label, cache_label, consequence, consequence_for, named, Consequence, ReclaimKind, Reclaimable, Risk,
};
use crate::text::lossy_text;
use crate::tree::Node;

verus! {

proof fn lemma_spelled_caches()
    ensures
        "google-chrome"@.len() == 13,
        "google-chrome"@[0] == 'g' && "google-chrome"@[1] == 'o' && "google-chrome"@[2] == 'o'
            && "google-chrome"@[3] == 'g'
            && "google-chrome"@[4] == 'l' && "google-chrome"@[5] == 'e' && "google-chrome"@[6] == '-' && "google-chrome"@[7] == 'c'
            && "google-chrome"@[8] == 'h' && "google-chrome"@[9] == 'r' && "google-chrome"@[10] == 'o' && "google-chrome"@[11] == 'm'
            && "google-chrome"@[12] == 'e',
        "chromium"@.len() == 8,
        "chromium"@[0] == 'c' && "chromium"@[1] == 'h' && "chromium"@[2] == 'r' && "chromium"@[3] == 'o'
            && "chromium"@[4] == 'm' && "chromium"@[5] == 'i' && "chromium"@[6] == 'u' && "chromium"@[7] == 'm',
        "BraveSoftware"@.len() == 13,
        "BraveSoftware"@[0] == 'B' && "BraveSoftware"@[1] == 'r' && "BraveSoftware"@[2] == 'a'
            && "BraveSoftware"@[3] == 'v'
            && "BraveSoftware"@[4] == 'e' && "BraveSoftware"@[5] == 'S' && "BraveSoftware"@[6] == 'o' && "BraveSoftware"@[7] == 'f'
            && "BraveSoftware"@[8] == 't' && "BraveSoftware"@[9] == 'w' && "BraveSoftware"@[10] == 'a' && "BraveSoftware"@[11] == 'r'
            && "BraveSoftware"@[12] == 'e',
        "microsoft-edge"@.len() == 14,
        "microsoft-edge"@[0] == 'm' && "microsoft-edge"@[1] == 'i' && "microsoft-edge"@[2] == 'c'
            && "microsoft-edge"@[3] == 'r'
            && "microsoft-edge"@[4] == 'o' && "microsoft-edge"@[5] == 's' && "microsoft-edge"@[6] == 'o' && "microsoft-edge"@[7] == 'f'
            && "microsoft-edge"@[8] == 't' && "microsoft-edge"@[9] == '-' && "microsoft-edge"@[10] == 'e' && "microsoft-edge"@[11] == 'd'
            && "microsoft-edge"@[12] == 'g' && "microsoft-edge"@[13] == 'e',
        "vivaldi"@.len() == 7,
        "vivaldi"@[0] == 'v' && "vivaldi"@[1] == 'i' && "vivaldi"@[2] == 'v' && "vivaldi"@[3] == 'a'
            && "vivaldi"@[4] == 'l' && "vivaldi"@[5] == 'd' && "vivaldi"@[6] == 'i',
        "mozilla"@.len() == 7,
        "mozilla"@[0] == 'm' && "mozilla"@[1] == 'o' && "mozilla"@[2] == 'z' && "mozilla"@[3] == 'i'
            && "mozilla"@[4] == 'l' && "mozilla"@[5] == 'l' && "mozilla"@[6] == 'a',
        "thumbnails"@.len() == 10,
        "thumbnails"@[0] == 't' && "thumbnails"@[1] == 'h' && "thumbnails"@[2] == 'u' && "thumbnails"@[3] == 'm'
            && "thumbnails"@[4] == 'b' && "thumbnails"@[5] == 'n' && "thumbnails"@[6] == 'a' && "thumbnails"@[7] == 'i'
            && "thumbnails"@[8] == 'l' && "thumbnails"@[9] == 's',
        "tracker3"@.len() == 8,
        "tracker3"@[0] == 't' && "tracker3"@[1] == 'r' && "tracker3"@[2] == 'a' && "tracker3"@[3] == 'c'
            && "tracker3"@[4] == 'k' && "tracker3"@[5] == 'e' && "tracker3"@[6] == 'r' && "tracker3"@[7] == '3',
        "tracker"@.len() == 7,
        "tracker"@[0] == 't' && "tracker"@[1] == 'r' && "tracker"@[2] == 'a' && "tracker"@[3] == 'c'
            && "tracker"@[4] == 'k' && "tracker"@[5] == 'e' && "tracker"@[6] == 'r',
        "fontconfig"@.len() == 10,
        "fontconfig"@[0] == 'f' && "fontconfig"@[1] == 'o' && "fontconfig"@[2] == 'n' && "fontconfig"@[3] == 't'
            && "fontconfig"@[4] == 'c' && "fontconfig"@[5] == 'o' && "fontconfig"@[6] == 'n' && "fontconfig"@[7] == 'f'
            && "fontconfig"@[8] == 'i' && "fontconfig"@[9] == 'g',
        "mesa_shader_cache"@.len() == 17,
        "mesa_shader_cache"@[0] == 'm' && "mesa_shader_cache"@[1] == 'e' && "mesa_shader_cache"@[2] == 's'
            && "mesa_shader_cache"@[3] == 'a'
            && "mesa_shader_cache"@[4] == '_' && "mesa_shader_cache"@[5] == 's' && "mesa_shader_cache"@[6] == 'h' && "mesa_shader_cache"@[7] == 'a'
            && "mesa_shader_cache"@[8] == 'd' && "mesa_shader_cache"@[9] == 'e' && "mesa_shader_cache"@[10] == 'r' && "mesa_shader_cache"@[11] == '_'
            && "mesa_shader_cache"@[12] == 'c' && "mesa_shader_cache"@[13] == 'a' && "mesa_shader_cache"@[14] == 'c' && "mesa_shader_cache"@[15] == 'h'
            && "mesa_shader_cache"@[16] == 'e',
        "mesa_shader_cache_db"@.len() == 20,
        "mesa_shader_cache_db"@[0] == 'm' && "mesa_shader_cache_db"@[1] == 'e' && "mesa_shader_cache_db"@[2] == 's'
            && "mesa_shader_cache_db"@[3] == 'a'
            && "mesa_shader_cache_db"@[4] == '_' && "mesa_shader_cache_db"@[5] == 's' && "mesa_shader_cache_db"@[6] == 'h' && "mesa_shader_cache_db"@[7] == 'a'
            && "mesa_shader_cache_db"@[8] == 'd' && "mesa_shader_cache_db"@[9] == 'e' && "mesa_shader_cache_db"@[10] == 'r' && "mesa_shader_cache_db"@[11] == '_'
            && "mesa_shader_cache_db"@[12] == 'c' && "mesa_shader_cache_db"@[13] == 'a' && "mesa_shader_cache_db"@[14] == 'c' && "mesa_shader_cache_db"@[15] == 'h'
            && "mesa_shader_cache_db"@[16] == 'e' && "mesa_shader_cache_db"@[17] == '_' && "mesa_shader_cache_db"@[18] == 'd' && "mesa_shader_cache_db"@[19] == 'b',
        "radv_builtin_shaders"@.len() == 20,
        "radv_builtin_shaders"@[0] == 'r' && "radv_builtin_shaders"@[1] == 'a' && "radv_builtin_shaders"@[2] == 'd'
            && "radv_builtin_shaders"@[3] == 'v'
            && "radv_builtin_shaders"@[4] == '_' && "radv_builtin_shaders"@[5] == 'b' && "radv_builtin_shaders"@[6] == 'u' && "radv_builtin_shaders"@[7] == 'i'
            && "radv_builtin_shaders"@[8] == 'l' && "radv_builtin_shaders"@[9] == 't' && "radv_builtin_shaders"@[10] == 'i' && "radv_builtin_shaders"@[11] == 'n'
            && "radv_builtin_shaders"@[12] == '_' && "radv_builtin_shaders"@[13] == 's' && "radv_builtin_shaders"@[14] == 'h' && "radv_builtin_shaders"@[15] == 'a'
            && "radv_builtin_shaders"@[16] == 'd' && "radv_builtin_shaders"@[17] == 'e' && "radv_builtin_shaders"@[18] == 'r' && "radv_builtin_shaders"@[19] == 's',
        "nvidia"@.len() == 6,
        "nvidia"@[0] == 'n' && "nvidia"@[1] == 'v' && "nvidia"@[2] == 'i' && "nvidia"@[3] == 'd'
            && "nvidia"@[4] == 'i' && "nvidia"@[5] == 'a',
        "go-build"@.len() == 8,
        "go-build"@[0] == 'g' && "go-build"@[1] == 'o' && "go-build"@[2] == '-' && "go-build"@[3] == 'b'
            && "go-build"@[4] == 'u' && "go-build"@[5] == 'i' && "go-build"@[6] == 'l' && "go-build"@[7] == 'd',
        "pip"@.len() == 3,
        "pip"@[0] == 'p' && "pip"@[1] == 'i' && "pip"@[2] == 'p',
        "yarn"@.len() == 4,
        "yarn"@[0] == 'y' && "yarn"@[1] == 'a' && "yarn"@[2] == 'r' && "yarn"@[3] == 'n',
        "node-gyp"@.len() == 8,
        "node-gyp"@[0] == 'n' && "node-gyp"@[1] == 'o' && "node-gyp"@[2] == 'd' && "node-gyp"@[3] == 'e'
            && "node-gyp"@[4] == '-' && "node-gyp"@[5] == 'g' && "node-gyp"@[6] == 'y' && "node-gyp"@[7] == 'p',
        "ms-playwright"@.len() == 13,
        "ms-playwright"@[0] == 'm' && "ms-playwright"@[1] == 's' && "ms-playwright"@[2] == '-'
            && "ms-playwright"@[3] == 'p'
            && "ms-playwright"@[4] == 'l' && "ms-playwright"@[5] == 'a' && "ms-playwright"@[6] == 'y' && "ms-playwright"@[7] == 'w'
            && "ms-playwright"@[8] == 'r' && "ms-playwright"@[9] == 'i' && "ms-playwright"@[10] == 'g' && "ms-playwright"@[11] == 'h'
            && "ms-playwright"@[12] == 't',
        "JetBrains"@.len() == 9,
        "JetBrains"@[0] == 'J' && "JetBrains"@[1] == 'e' && "JetBrains"@[2] == 't' && "JetBrains"@[3] == 'B'
            && "JetBrains"@[4] == 'r' && "JetBrains"@[5] == 'a' && "JetBrains"@[6] == 'i' && "JetBrains"@[7] == 'n'
            && "JetBrains"@[8] == 's',
        "spotify"@.len() == 7,
        "spotify"@[0] == 's' && "spotify"@[1] == 'p' && "spotify"@[2] == 'o' && "spotify"@[3] == 't'
            && "spotify"@[4] == 'i' && "spotify"@[5] == 'f' && "spotify"@[6] == 'y',
        "vlc"@.len() == 3,
        "vlc"@[0] == 'v' && "vlc"@[1] == 'l' && "vlc"@[2] == 'c',
        "gstreamer-1.0"@.len() == 13,
        "gstreamer-1.0"@[0] == 'g' && "gstreamer-1.0"@[1] == 's' && "gstreamer-1.0"@[2] == 't'
            && "gstreamer-1.0"@[3] == 'r'
            && "gstreamer-1.0"@[4] == 'e' && "gstreamer-1.0"@[5] == 'a' && "gstreamer-1.0"@[6] == 'm' && "gstreamer-1.0"@[7] == 'e'
            && "gstreamer-1.0"@[8] == 'r' && "gstreamer-1.0"@[9] == '-' && "gstreamer-1.0"@[10] == '1' && "gstreamer-1.0"@[11] == '.'
            && "gstreamer-1.0"@[12] == '0',
        "winetricks"@.len() == 10,
        "winetricks"@[0] == 'w' && "winetricks"@[1] == 'i' && "winetricks"@[2] == 'n' && "winetricks"@[3] == 'e'
            && "winetricks"@[4] == 't' && "winetricks"@[5] == 'r' && "winetricks"@[6] == 'i' && "winetricks"@[7] == 'c'
            && "winetricks"@[8] == 'k' && "winetricks"@[9] == 's',
{
    reveal_strlit("google-chrome");
    reveal_strlit("chromium");
    reveal_strlit("BraveSoftware");
    reveal_strlit("microsoft-edge");
    reveal_strlit("vivaldi");
    reveal_strlit("mozilla");
    reveal_strlit("thumbnails");
    reveal_strlit("tracker3");
    reveal_strlit("tracker");
    reveal_strlit("fontconfig");
    reveal_strlit("mesa_shader_cache");
    reveal_strlit("mesa_shader_cache_db");
    reveal_strlit("radv_builtin_shaders");
    reveal_strlit("nvidia");
    reveal_strlit("go-build");
    reveal_strlit("pip");
    reveal_strlit("yarn");
    reveal_strlit("node-gyp");
    reveal_strlit("ms-playwright");
    reveal_strlit("JetBrains");
    reveal_strlit("spotify");
    reveal_strlit("vlc");
    reveal_strlit("gstreamer-1.0");
    reveal_strlit("winetricks");
}

proof fn lemma_spelled_artifacts()
    ensures
        "node_modules"@.len() == 12,
        "node_modules"@[0] == 'n' && "node_modules"@[1] == 'o' && "node_modules"@[2] == 'd' && "node_modules"@[3] == 'e'
            && "node_modules"@[4] == '_' && "node_modules"@[5] == 'm' && "node_modules"@[6] == 'o' && "node_modules"@[7] == 'd'
            && "node_modules"@[8] == 'u' && "node_modules"@[9] == 'l' && "node_modules"@[10] == 'e' && "node_modules"@[11] == 's',
        "target"@.len() == 6,
        "target"@[0] == 't' && "target"@[1] == 'a' && "target"@[2] == 'r' && "target"@[3] == 'g'
            && "target"@[4] == 'e' && "target"@[5] == 't',
        "__pycache__"@.len() == 11,
        "__pycache__"@[0] == '_' && "__pycache__"@[1] == '_' && "__pycache__"@[2] == 'p' && "__pycache__"@[3] == 'y'
            && "__pycache__"@[4] == 'c' && "__pycache__"@[5] == 'a' && "__pycache__"@[6] == 'c' && "__pycache__"@[7] == 'h'
            && "__pycache__"@[8] == 'e' && "__pycache__"@[9] == '_' && "__pycache__"@[10] == '_',
        ".pytest_cache"@.len() == 13,
        ".pytest_cache"@[0] == '.' && ".pytest_cache"@[1] == 'p' && ".pytest_cache"@[2] == 'y'
            && ".pytest_cache"@[3] == 't'
            && ".pytest_cache"@[4] == 'e' && ".pytest_cache"@[5] == 's' && ".pytest_cache"@[6] == 't' && ".pytest_cache"@[7] == '_'
            && ".pytest_cache"@[8] == 'c' && ".pytest_cache"@[9] == 'a' && ".pytest_cache"@[10] == 'c' && ".pytest_cache"@[11] == 'h'
            && ".pytest_cache"@[12] == 'e',
        ".mypy_cache"@.len() == 11,
        ".mypy_cache"@[0] == '.' && ".mypy_cache"@[1] == 'm' && ".mypy_cache"@[2] == 'y' && ".mypy_cache"@[3] == 'p'
            && ".mypy_cache"@[4] == 'y' && ".mypy_cache"@[5] == '_' && ".mypy_cache"@[6] == 'c' && ".mypy_cache"@[7] == 'a'
            && ".mypy_cache"@[8] == 'c' && ".mypy_cache"@[9] == 'h' && ".mypy_cache"@[10] == 'e',
        ".ruff_cache"@.len() == 11,
        ".ruff_cache"@[0] == '.' && ".ruff_cache"@[1] == 'r' && ".ruff_cache"@[2] == 'u' && ".ruff_cache"@[3] == 'f'
            && ".ruff_cache"@[4] == 'f' && ".ruff_cache"@[5] == '_' && ".ruff_cache"@[6] == 'c' && ".ruff_cache"@[7] == 'a'
            && ".ruff_cache"@[8] == 'c' && ".ruff_cache"@[9] == 'h' && ".ruff_cache"@[10] == 'e',
        ".gradle"@.len() == 7,
        ".gradle"@[0] == '.' && ".gradle"@[1] == 'g' && ".gradle"@[2] == 'r' && ".gradle"@[3] == 'a'
            && ".gradle"@[4] == 'd' && ".gradle"@[5] == 'l' && ".gradle"@[6] == 'e',
        ".tox"@.len() == 4,
        ".tox"@[0] == '.' && ".tox"@[1] == 't' && ".tox"@[2] == 'o' && ".tox"@[3] == 'x',
        ".next"@.len() == 5,
        ".next"@[0] == '.' && ".next"@[1] == 'n' && ".next"@[2] == 'e' && ".next"@[3] == 'x'
            && ".next"@[4] == 't',
        ".nuxt"@.len() == 5,
        ".nuxt"@[0] == '.' && ".nuxt"@[1] == 'n' && ".nuxt"@[2] == 'u' && ".nuxt"@[3] == 'x'
            && ".nuxt"@[4] == 't',
        ".svelte-kit"@.len() == 11,
        ".svelte-kit"@[0] == '.' && ".svelte-kit"@[1] == 's' && ".svelte-kit"@[2] == 'v' && ".svelte-kit"@[3] == 'e'
            && ".svelte-kit"@[4] == 'l' && ".svelte-kit"@[5] == 't' && ".svelte-kit"@[6] == 'e' && ".svelte-kit"@[7] == '-'
            && ".svelte-kit"@[8] == 'k' && ".svelte-kit"@[9] == 'i' && ".svelte-kit"@[10] == 't',
        ".turbo"@.len() == 6,
        ".turbo"@[0] == '.' && ".turbo"@[1] == 't' && ".turbo"@[2] == 'u' && ".turbo"@[3] == 'r'
            && ".turbo"@[4] == 'b' && ".turbo"@[5] == 'o',
        ".parcel-cache"@.len() == 13,
        ".parcel-cache"@[0] == '.' && ".parcel-cache"@[1] == 'p' && ".parcel-cache"@[2] == 'a'
            && ".parcel-cache"@[3] == 'r'
            && ".parcel-cache"@[4] == 'c' && ".parcel-cache"@[5] == 'e' && ".parcel-cache"@[6] == 'l' && ".parcel-cache"@[7] == '-'
            && ".parcel-cache"@[8] == 'c' && ".parcel-cache"@[9] == 'a' && ".parcel-cache"@[10] == 'c' && ".parcel-cache"@[11] == 'h'
            && ".parcel-cache"@[12] == 'e',
        "build"@.len() == 5,
        "build"@[0] == 'b' && "build"@[1] == 'u' && "build"@[2] == 'i' && "build"@[3] == 'l'
            && "build"@[4] == 'd',
        "dist"@.len() == 4,
        "dist"@[0] == 'd' && "dist"@[1] == 'i' && "dist"@[2] == 's' && "dist"@[3] == 't',
{
    reveal_strlit("node_modules");
    reveal_strlit("target");
    reveal_strlit("__pycache__");
    reveal_strlit(".pytest_cache");
    reveal_strlit(".mypy_cache");
    reveal_strlit(".ruff_cache");
    reveal_strlit(".gradle");
    reveal_strlit(".tox");
    reveal_strlit(".next");
    reveal_strlit(".nuxt");
    reveal_strlit(".svelte-kit");
    reveal_strlit(".turbo");
    reveal_strlit(".parcel-cache");
    reveal_strlit("build");
    reveal_strlit("dist");
}

/// What removing a cache means, for every cache that is known by its name; any other calls
/// for caution.
pub proof fn caches_mean_what_their_names_say(name: &str, what: Consequence)
    requires
        call_ensures(consequence_for, (ReclaimKind::Cache, name), what),
    ensures
        (name@ == "google-chrome"@ || name@ == "chromium"@ || name@ == "BraveSoftware"@
            || name@ == "microsoft-edge"@ || name@ == "vivaldi"@ || name@ == "mozilla"@)
            ==> what.risk is Safe && what.summary@
            == "The browser re-downloads cached web content as you browse. Bookmarks, history, passwords and open tabs live elsewhere and are not touched."@,
        (name@ == "thumbnails"@)
            ==> what.risk is Safe && what.summary@
            == "Thumbnails regenerate automatically as you open folders; file managers are briefly slower the first time."@,
        (name@ == "tracker3"@ || name@ == "tracker"@)
            ==> what.risk is Safe && what.summary@
            == "The file-search index rebuilds in the background; searches may be incomplete for a short while."@,
        (name@ == "fontconfig"@)
            ==> what.risk is Safe && what.summary@
            == "Rebuilt automatically the next time an application loads fonts."@,
        (name@ == "mesa_shader_cache"@ || name@ == "mesa_shader_cache_db"@ || name@ == "radv_builtin_shaders"@
            || name@ == "nvidia"@)
            ==> what.risk is Safe && what.summary@
            == "Games and GPU apps recompile shaders on next launch — the first run is slower, then performance returns to normal."@,
        (name@ == "go-build"@)
            ==> what.risk is Safe && what.summary@
            == "Go recompiles from source on your next build — slower once, no downloads."@,
        (name@ == "pip"@)
            ==> what.risk is Rebuild && what.summary@
            == "pip re-downloads packages the next time you install something (needs internet). Already-installed environments keep working."@,
        (name@ == "yarn"@ || name@ == "node-gyp"@)
            ==> what.risk is Rebuild && what.summary@
            == "Re-downloaded the next time you install packages (needs internet); installed projects keep working."@,
        (name@ == "ms-playwright"@)
            ==> what.risk is Rebuild && what.summary@
            == "Playwright re-downloads its browser binaries on next use (needs internet)."@,
        (name@ == "JetBrains"@)
            ==> what.risk is Rebuild && what.summary@
            == "The IDE re-indexes your projects on next launch — the first start is slower; your code and settings are untouched."@,
        (name@ == "spotify"@ || name@ == "vlc"@ || name@ == "gstreamer-1.0"@)
            ==> what.risk is Safe && what.summary@
            == "Re-downloaded or re-streamed as needed; your library and settings stay."@,
        !(name@ == "google-chrome"@ || name@ == "chromium"@ || name@ == "BraveSoftware"@
            || name@ == "microsoft-edge"@ || name@ == "vivaldi"@ || name@ == "mozilla"@
            || name@ == "thumbnails"@ || name@ == "tracker3"@ || name@ == "tracker"@
            || name@ == "fontconfig"@ || name@ == "mesa_shader_cache"@ || name@ == "mesa_shader_cache_db"@
            || name@ == "radv_builtin_shaders"@ || name@ == "nvidia"@ || name@ == "go-build"@
            || name@ == "pip"@ || name@ == "yarn"@ || name@ == "node-gyp"@
            || name@ == "ms-playwright"@ || name@ == "JetBrains"@ || name@ == "spotify"@
            || name@ == "vlc"@ || name@ == "gstreamer-1.0"@)
            ==> what.risk is Caution && what.summary@
            == "Unrecognised cache. Most apps rebuild these automatically, but if it belongs to something you rely on, confirm it still works afterwards."@,
{
    lemma_spelled_caches();
}

/// What removing a project artifact means, by its name; it never calls for caution.
pub proof fn artifacts_mean_what_their_names_say(name: &str, what: Consequence)
    requires
        call_ensures(consequence_for, (ReclaimKind::Artifact, name), what),
    ensures
        (name@ == "node_modules"@)
            ==> what.risk is Rebuild && what.summary@
            == "The project won't build or run until you reinstall dependencies (npm install / yarn / pnpm install) — needs internet."@,
        (name@ == "target"@)
            ==> what.risk is Rebuild && what.summary@
            == "The next `cargo build` recompiles from scratch — slower once, no downloads."@,
        (name@ == "__pycache__"@)
            ==> what.risk is Safe && what.summary@
            == "Python regenerates this bytecode automatically on the next run — no impact."@,
        (name@ == ".pytest_cache"@ || name@ == ".mypy_cache"@ || name@ == ".ruff_cache"@)
            ==> what.risk is Safe && what.summary@
            == "Rebuilt automatically the next time you run the tool."@,
        (name@ == ".gradle"@)
            ==> what.risk is Rebuild && what.summary@
            == "Gradle re-downloads dependencies and rebuilds caches on the next build (needs internet)."@,
        (name@ == ".tox"@)
            ==> what.risk is Rebuild && what.summary@
            == "tox recreates its environments on the next run (needs internet)."@,
        (name@ == ".next"@ || name@ == ".nuxt"@ || name@ == ".svelte-kit"@
            || name@ == ".turbo"@ || name@ == ".parcel-cache"@ || name@ == "build"@
            || name@ == "dist"@)
            ==> what.risk is Rebuild && what.summary@
            == "Recreated by your next build or dev run."@,
        !(name@ == "node_modules"@ || name@ == "target"@ || name@ == "__pycache__"@
            || name@ == ".pytest_cache"@ || name@ == ".mypy_cache"@ || name@ == ".ruff_cache"@
            || name@ == ".gradle"@ || name@ == ".tox"@ || name@ == ".next"@
            || name@ == ".nuxt"@ || name@ == ".svelte-kit"@ || name@ == ".turbo"@
            || name@ == ".parcel-cache"@ || name@ == "build"@ || name@ == "dist"@)
            ==> what.risk is Rebuild && what.summary@
            == "Recreated by your build tooling."@,
{
    lemma_spelled_artifacts();
}

/// Emptying the Trash is safe, whatever it is called.
pub proof fn the_trash_is_safe_to_empty(name: &str, what: Consequence)
    requires
        call_ensures(consequence_for, (ReclaimKind::Trash, name), what),
    ensures
        what.risk is Safe,
        what.summary@
            == "Files you already deleted. Emptying frees the space for good; nothing you currently use is affected."@,
{
}

/// What removing an entry means goes by its kind and the name that its path ends in, and
/// by nothing else.
pub proof fn consequences_go_by_kind_and_name(item: &Reclaimable, name: &str, what: Consequence, of_name: Consequence)
    requires
        name@ == (match file_name(item.path@) {
            Some(last) => lossy_text(last),
            None => Seq::<char>::empty(),
        }),
        call_ensures(consequence, (item,), what),
        call_ensures(consequence_for, (item.kind, name), of_name),
    ensures
        what.risk == of_name.risk,
        what.summary@ == of_name.summary@,
{
    assert(what@ == of_name@);
}

/// The badges.
pub proof fn badges_say_the_risk(risk: Risk, word: &'static str)
    requires
        call_ensures(Risk::word, (risk,), word),
    ensures
        risk is Safe ==> word@ == "Safe"@,
        risk is Rebuild ==> word@ == "Rebuilds"@,
        risk is Caution ==> word@ == "Caution"@,
{
}

/// The name that a cache is shown under: a friendly one where it is known, else the name
/// of its directory.
pub proof fn caches_have_friendly_names(name: &str, label: String)
    requires
        call_ensures(cache_label, (name,), label),
    ensures
        name@ == "google-chrome"@ ==> label@ == "Google Chrome cache"@,
        name@ == "chromium"@ ==> label@ == "Chromium cache"@,
        name@ == "BraveSoftware"@ ==> label@ == "Brave cache"@,
        name@ == "microsoft-edge"@ ==> label@ == "Microsoft Edge cache"@,
        name@ == "vivaldi"@ ==> label@ == "Vivaldi cache"@,
        name@ == "mozilla"@ ==> label@ == "Firefox cache"@,
        name@ == "thumbnails"@ ==> label@ == "Thumbnail previews"@,
        name@ == "tracker3"@ || name@ == "tracker"@ ==> label@ == "File-search index"@,
        name@ == "fontconfig"@ ==> label@ == "Font cache"@,
        name@ == "mesa_shader_cache"@ || name@ == "mesa_shader_cache_db"@ ==> label@ == "GPU shader cache"@,
        name@ == "nvidia"@ ==> label@ == "NVIDIA shader cache"@,
        name@ == "pip"@ ==> label@ == "pip download cache"@,
        name@ == "go-build"@ ==> label@ == "Go build cache"@,
        name@ == "yarn"@ ==> label@ == "Yarn package cache"@,
        name@ == "node-gyp"@ ==> label@ == "node-gyp cache"@,
        name@ == "ms-playwright"@ ==> label@ == "Playwright browsers cache"@,
        name@ == "JetBrains"@ ==> label@ == "JetBrains IDE cache"@,
        name@ == "spotify"@ ==> label@ == "Spotify cache"@,
        name@ == "vlc"@ ==> label@ == "VLC cache"@,
        name@ == "gstreamer-1.0"@ ==> label@ == "GStreamer plugin cache"@,
        name@ == "winetricks"@ ==> label@ == "Winetricks cache"@,
        !(name@ == "google-chrome"@ || name@ == "chromium"@ || name@ == "BraveSoftware"@
            || name@ == "microsoft-edge"@ || name@ == "vivaldi"@ || name@ == "mozilla"@
            || name@ == "thumbnails"@ || name@ == "tracker3"@ || name@ == "tracker"@
            || name@ == "fontconfig"@ || name@ == "mesa_shader_cache"@ || name@ == "mesa_shader_cache_db"@
            || name@ == "nvidia"@ || name@ == "pip"@ || name@ == "go-build"@
            || name@ == "yarn"@ || name@ == "node-gyp"@ || name@ == "ms-playwright"@
            || name@ == "JetBrains"@ || name@ == "spotify"@ || name@ == "vlc"@
            || name@ == "gstreamer-1.0"@ || name@ == "winetricks"@) ==> label@ == name@,
{
    lemma_spelled_caches();
}

/// One of the nodes has that name.
pub open spec fn stands_beside(siblings: Seq<Node>, name: Seq<char>) -> bool {
    exists|i: int| 0 <= i < siblings.len() && (#[trigger] siblings[i])@.name == name
}

/// Which directories are project artifacts: those with a name that a tool alone uses, and
/// of the names that a user might use as well, a `target` beside a `Cargo.toml`, and a
/// `build` or `dist` beside a `package.json`. No other name is one.
pub proof fn artifacts_are_told_by_name_and_marker(name: &str, siblings: &[Node], label: Option<&'static str>)
    requires
        call_ensures(artifact_label, (name, siblings), label),
    ensures
        name@ == "node_modules"@ ==> (label matches Some(l) && l@ == "Node.js packages"@),
        name@ == "__pycache__"@ ==> (label matches Some(l) && l@ == "Python bytecode cache"@),
        name@ == ".pytest_cache"@ ==> (label matches Some(l) && l@ == "pytest cache"@),
        name@ == ".mypy_cache"@ ==> (label matches Some(l) && l@ == "mypy cache"@),
        name@ == ".ruff_cache"@ ==> (label matches Some(l) && l@ == "Ruff cache"@),
        name@ == ".gradle"@ ==> (label matches Some(l) && l@ == "Gradle cache"@),
        name@ == ".tox"@ ==> (label matches Some(l) && l@ == "tox environments"@),
        name@ == ".next"@ ==> (label matches Some(l) && l@ == "Next.js build"@),
        name@ == ".nuxt"@ ==> (label matches Some(l) && l@ == "Nuxt build"@),
        name@ == ".svelte-kit"@ ==> (label matches Some(l) && l@ == "SvelteKit build"@),
        name@ == ".turbo"@ ==> (label matches Some(l) && l@ == "Turbo cache"@),
        name@ == ".parcel-cache"@ ==> (label matches Some(l) && l@ == "Parcel cache"@),
        name@ == "target"@ && stands_beside(siblings@, "Cargo.toml"@) ==> (label matches Some(l) && l@
            == "Rust build output"@),
        (name@ == "build"@ || name@ == "dist"@) && stands_beside(siblings@, "package.json"@) ==> (label matches Some(l)
            && l@ == "Build output"@),
        name@ == "target"@ && !stands_beside(siblings@, "Cargo.toml"@) ==> label is None,
        (name@ == "build"@ || name@ == "dist"@) && !stands_beside(siblings@, "package.json"@) ==> label is None,
        !(name@ == "node_modules"@ || name@ == "__pycache__"@ || name@ == ".pytest_cache"@
            || name@ == ".mypy_cache"@ || name@ == ".ruff_cache"@ || name@ == ".gradle"@
            || name@ == ".tox"@ || name@ == ".next"@ || name@ == ".nuxt"@
            || name@ == ".svelte-kit"@ || name@ == ".turbo"@ || name@ == ".parcel-cache"@
            || name@ == "target"@ || name@ == "build"@ || name@ == "dist"@) ==> label is None,
{
    lemma_spelled_artifacts();
    lemma_beside(siblings@, "Cargo.toml"@);
    lemma_beside(siblings@, "package.json"@);
}

proof fn lemma_beside(siblings: Seq<Node>, name: Seq<char>)
    ensures
        named(views(siblings), name) == stands_beside(siblings, name),
{
    let all = views(siblings);
    if named(all, name) {
        let i = choose|i: int| 0 <= i < all.len() && (#[trigger] all[i]).name == name;
        assert(siblings[i]@ == all[i]);
    }
    if stands_beside(siblings, name) {
        let i = choose|i: int| 0 <= i < siblings.len() && (#[trigger] siblings[i])@.name == name;
        assert(all[i] == siblings[i]@);
    }
}

} // verus!
