//! Categories of files: what an extension stands for, and what the categories of a tree
//! add up to.
use vstd::prelude::*;
use vstd::string::*;

use crate::category::{
    belongs_to, bytes_in, category_of, category_totals, extension_category, extension_of, files_by_size, files_in,
    label_of, largest_in_category, names_without_extension_are_other, sum_totals, total_le,
    totals_list_each_used_category_once, totals_make_up_the_size, Category,
};
use crate::laws::orders::equal_nodes_keep_their_order;
use crate::laws::trees::sizes_add_up;
use crate::order::{stable_sort_exists, views, Ranked};
use crate::text::{ascii_lower, text_le};
use crate::tree::{files, node_le, node_order_is_total, Node, NodeView};

verus! {

proof fn lemma_spelled_videos()
    ensures
        "mp4"@.len() == 3,
        "mp4"@[0] == 'm' && "mp4"@[1] == 'p' && "mp4"@[2] == '4',
        "mkv"@.len() == 3,
        "mkv"@[0] == 'm' && "mkv"@[1] == 'k' && "mkv"@[2] == 'v',
        "mov"@.len() == 3,
        "mov"@[0] == 'm' && "mov"@[1] == 'o' && "mov"@[2] == 'v',
        "avi"@.len() == 3,
        "avi"@[0] == 'a' && "avi"@[1] == 'v' && "avi"@[2] == 'i',
        "webm"@.len() == 4,
        "webm"@[0] == 'w' && "webm"@[1] == 'e' && "webm"@[2] == 'b' && "webm"@[3] == 'm',
        "flv"@.len() == 3,
        "flv"@[0] == 'f' && "flv"@[1] == 'l' && "flv"@[2] == 'v',
        "wmv"@.len() == 3,
        "wmv"@[0] == 'w' && "wmv"@[1] == 'm' && "wmv"@[2] == 'v',
        "m4v"@.len() == 3,
        "m4v"@[0] == 'm' && "m4v"@[1] == '4' && "m4v"@[2] == 'v',
        "mpg"@.len() == 3,
        "mpg"@[0] == 'm' && "mpg"@[1] == 'p' && "mpg"@[2] == 'g',
        "mpeg"@.len() == 4,
        "mpeg"@[0] == 'm' && "mpeg"@[1] == 'p' && "mpeg"@[2] == 'e' && "mpeg"@[3] == 'g',
        "3gp"@.len() == 3,
        "3gp"@[0] == '3' && "3gp"@[1] == 'g' && "3gp"@[2] == 'p',
        "ts"@.len() == 2,
        "ts"@[0] == 't' && "ts"@[1] == 's',
{
    reveal_strlit("mp4");
    reveal_strlit("mkv");
    reveal_strlit("mov");
    reveal_strlit("avi");
    reveal_strlit("webm");
    reveal_strlit("flv");
    reveal_strlit("wmv");
    reveal_strlit("m4v");
    reveal_strlit("mpg");
    reveal_strlit("mpeg");
    reveal_strlit("3gp");
    reveal_strlit("ts");
}

proof fn lemma_spelled_audio()
    ensures
        "mp3"@.len() == 3,
        "mp3"@[0] == 'm' && "mp3"@[1] == 'p' && "mp3"@[2] == '3',
        "flac"@.len() == 4,
        "flac"@[0] == 'f' && "flac"@[1] == 'l' && "flac"@[2] == 'a' && "flac"@[3] == 'c',
        "wav"@.len() == 3,
        "wav"@[0] == 'w' && "wav"@[1] == 'a' && "wav"@[2] == 'v',
        "ogg"@.len() == 3,
        "ogg"@[0] == 'o' && "ogg"@[1] == 'g' && "ogg"@[2] == 'g',
        "m4a"@.len() == 3,
        "m4a"@[0] == 'm' && "m4a"@[1] == '4' && "m4a"@[2] == 'a',
        "aac"@.len() == 3,
        "aac"@[0] == 'a' && "aac"@[1] == 'a' && "aac"@[2] == 'c',
        "wma"@.len() == 3,
        "wma"@[0] == 'w' && "wma"@[1] == 'm' && "wma"@[2] == 'a',
        "opus"@.len() == 4,
        "opus"@[0] == 'o' && "opus"@[1] == 'p' && "opus"@[2] == 'u' && "opus"@[3] == 's',
        "aiff"@.len() == 4,
        "aiff"@[0] == 'a' && "aiff"@[1] == 'i' && "aiff"@[2] == 'f' && "aiff"@[3] == 'f',
        "mid"@.len() == 3,
        "mid"@[0] == 'm' && "mid"@[1] == 'i' && "mid"@[2] == 'd',
{
    reveal_strlit("mp3");
    reveal_strlit("flac");
    reveal_strlit("wav");
    reveal_strlit("ogg");
    reveal_strlit("m4a");
    reveal_strlit("aac");
    reveal_strlit("wma");
    reveal_strlit("opus");
    reveal_strlit("aiff");
    reveal_strlit("mid");
}

proof fn lemma_spelled_images()
    ensures
        "jpg"@.len() == 3,
        "jpg"@[0] == 'j' && "jpg"@[1] == 'p' && "jpg"@[2] == 'g',
        "jpeg"@.len() == 4,
        "jpeg"@[0] == 'j' && "jpeg"@[1] == 'p' && "jpeg"@[2] == 'e' && "jpeg"@[3] == 'g',
        "png"@.len() == 3,
        "png"@[0] == 'p' && "png"@[1] == 'n' && "png"@[2] == 'g',
        "gif"@.len() == 3,
        "gif"@[0] == 'g' && "gif"@[1] == 'i' && "gif"@[2] == 'f',
        "bmp"@.len() == 3,
        "bmp"@[0] == 'b' && "bmp"@[1] == 'm' && "bmp"@[2] == 'p',
        "webp"@.len() == 4,
        "webp"@[0] == 'w' && "webp"@[1] == 'e' && "webp"@[2] == 'b' && "webp"@[3] == 'p',
        "svg"@.len() == 3,
        "svg"@[0] == 's' && "svg"@[1] == 'v' && "svg"@[2] == 'g',
        "heic"@.len() == 4,
        "heic"@[0] == 'h' && "heic"@[1] == 'e' && "heic"@[2] == 'i' && "heic"@[3] == 'c',
        "heif"@.len() == 4,
        "heif"@[0] == 'h' && "heif"@[1] == 'e' && "heif"@[2] == 'i' && "heif"@[3] == 'f',
        "tiff"@.len() == 4,
        "tiff"@[0] == 't' && "tiff"@[1] == 'i' && "tiff"@[2] == 'f' && "tiff"@[3] == 'f',
        "tif"@.len() == 3,
        "tif"@[0] == 't' && "tif"@[1] == 'i' && "tif"@[2] == 'f',
        "raw"@.len() == 3,
        "raw"@[0] == 'r' && "raw"@[1] == 'a' && "raw"@[2] == 'w',
        "cr2"@.len() == 3,
        "cr2"@[0] == 'c' && "cr2"@[1] == 'r' && "cr2"@[2] == '2',
        "nef"@.len() == 3,
        "nef"@[0] == 'n' && "nef"@[1] == 'e' && "nef"@[2] == 'f',
        "ico"@.len() == 3,
        "ico"@[0] == 'i' && "ico"@[1] == 'c' && "ico"@[2] == 'o',
        "psd"@.len() == 3,
        "psd"@[0] == 'p' && "psd"@[1] == 's' && "psd"@[2] == 'd',
{
    reveal_strlit("jpg");
    reveal_strlit("jpeg");
    reveal_strlit("png");
    reveal_strlit("gif");
    reveal_strlit("bmp");
    reveal_strlit("webp");
    reveal_strlit("svg");
    reveal_strlit("heic");
    reveal_strlit("heif");
    reveal_strlit("tiff");
    reveal_strlit("tif");
    reveal_strlit("raw");
    reveal_strlit("cr2");
    reveal_strlit("nef");
    reveal_strlit("ico");
    reveal_strlit("psd");
}

proof fn lemma_spelled_documents()
    ensures
        "pdf"@.len() == 3,
        "pdf"@[0] == 'p' && "pdf"@[1] == 'd' && "pdf"@[2] == 'f',
        "doc"@.len() == 3,
        "doc"@[0] == 'd' && "doc"@[1] == 'o' && "doc"@[2] == 'c',
        "docx"@.len() == 4,
        "docx"@[0] == 'd' && "docx"@[1] == 'o' && "docx"@[2] == 'c' && "docx"@[3] == 'x',
        "xls"@.len() == 3,
        "xls"@[0] == 'x' && "xls"@[1] == 'l' && "xls"@[2] == 's',
        "xlsx"@.len() == 4,
        "xlsx"@[0] == 'x' && "xlsx"@[1] == 'l' && "xlsx"@[2] == 's' && "xlsx"@[3] == 'x',
        "ppt"@.len() == 3,
        "ppt"@[0] == 'p' && "ppt"@[1] == 'p' && "ppt"@[2] == 't',
        "pptx"@.len() == 4,
        "pptx"@[0] == 'p' && "pptx"@[1] == 'p' && "pptx"@[2] == 't' && "pptx"@[3] == 'x',
        "odt"@.len() == 3,
        "odt"@[0] == 'o' && "odt"@[1] == 'd' && "odt"@[2] == 't',
        "ods"@.len() == 3,
        "ods"@[0] == 'o' && "ods"@[1] == 'd' && "ods"@[2] == 's',
        "odp"@.len() == 3,
        "odp"@[0] == 'o' && "odp"@[1] == 'd' && "odp"@[2] == 'p',
        "txt"@.len() == 3,
        "txt"@[0] == 't' && "txt"@[1] == 'x' && "txt"@[2] == 't',
        "md"@.len() == 2,
        "md"@[0] == 'm' && "md"@[1] == 'd',
        "rtf"@.len() == 3,
        "rtf"@[0] == 'r' && "rtf"@[1] == 't' && "rtf"@[2] == 'f',
        "epub"@.len() == 4,
        "epub"@[0] == 'e' && "epub"@[1] == 'p' && "epub"@[2] == 'u' && "epub"@[3] == 'b',
        "csv"@.len() == 3,
        "csv"@[0] == 'c' && "csv"@[1] == 's' && "csv"@[2] == 'v',
        "tex"@.len() == 3,
        "tex"@[0] == 't' && "tex"@[1] == 'e' && "tex"@[2] == 'x',
{
    reveal_strlit("pdf");
    reveal_strlit("doc");
    reveal_strlit("docx");
    reveal_strlit("xls");
    reveal_strlit("xlsx");
    reveal_strlit("ppt");
    reveal_strlit("pptx");
    reveal_strlit("odt");
    reveal_strlit("ods");
    reveal_strlit("odp");
    reveal_strlit("txt");
    reveal_strlit("md");
    reveal_strlit("rtf");
    reveal_strlit("epub");
    reveal_strlit("csv");
    reveal_strlit("tex");
}

proof fn lemma_spelled_archives()
    ensures
        "zip"@.len() == 3,
        "zip"@[0] == 'z' && "zip"@[1] == 'i' && "zip"@[2] == 'p',
        "tar"@.len() == 3,
        "tar"@[0] == 't' && "tar"@[1] == 'a' && "tar"@[2] == 'r',
        "gz"@.len() == 2,
        "gz"@[0] == 'g' && "gz"@[1] == 'z',
        "bz2"@.len() == 3,
        "bz2"@[0] == 'b' && "bz2"@[1] == 'z' && "bz2"@[2] == '2',
        "xz"@.len() == 2,
        "xz"@[0] == 'x' && "xz"@[1] == 'z',
        "7z"@.len() == 2,
        "7z"@[0] == '7' && "7z"@[1] == 'z',
        "rar"@.len() == 3,
        "rar"@[0] == 'r' && "rar"@[1] == 'a' && "rar"@[2] == 'r',
        "zst"@.len() == 3,
        "zst"@[0] == 'z' && "zst"@[1] == 's' && "zst"@[2] == 't',
        "tgz"@.len() == 3,
        "tgz"@[0] == 't' && "tgz"@[1] == 'g' && "tgz"@[2] == 'z',
        "iso"@.len() == 3,
        "iso"@[0] == 'i' && "iso"@[1] == 's' && "iso"@[2] == 'o',
        "lz"@.len() == 2,
        "lz"@[0] == 'l' && "lz"@[1] == 'z',
        "lzma"@.len() == 4,
        "lzma"@[0] == 'l' && "lzma"@[1] == 'z' && "lzma"@[2] == 'm' && "lzma"@[3] == 'a',
        "cab"@.len() == 3,
        "cab"@[0] == 'c' && "cab"@[1] == 'a' && "cab"@[2] == 'b',
{
    reveal_strlit("zip");
    reveal_strlit("tar");
    reveal_strlit("gz");
    reveal_strlit("bz2");
    reveal_strlit("xz");
    reveal_strlit("7z");
    reveal_strlit("rar");
    reveal_strlit("zst");
    reveal_strlit("tgz");
    reveal_strlit("iso");
    reveal_strlit("lz");
    reveal_strlit("lzma");
    reveal_strlit("cab");
}

proof fn lemma_spelled_code()
    ensures
        "rs"@.len() == 2,
        "rs"@[0] == 'r' && "rs"@[1] == 's',
        "py"@.len() == 2,
        "py"@[0] == 'p' && "py"@[1] == 'y',
        "js"@.len() == 2,
        "js"@[0] == 'j' && "js"@[1] == 's',
        "jsx"@.len() == 3,
        "jsx"@[0] == 'j' && "jsx"@[1] == 's' && "jsx"@[2] == 'x',
        "tsx"@.len() == 3,
        "tsx"@[0] == 't' && "tsx"@[1] == 's' && "tsx"@[2] == 'x',
        "c"@.len() == 1,
        "c"@[0] == 'c',
        "cpp"@.len() == 3,
        "cpp"@[0] == 'c' && "cpp"@[1] == 'p' && "cpp"@[2] == 'p',
        "cc"@.len() == 2,
        "cc"@[0] == 'c' && "cc"@[1] == 'c',
        "h"@.len() == 1,
        "h"@[0] == 'h',
        "hpp"@.len() == 3,
        "hpp"@[0] == 'h' && "hpp"@[1] == 'p' && "hpp"@[2] == 'p',
        "java"@.len() == 4,
        "java"@[0] == 'j' && "java"@[1] == 'a' && "java"@[2] == 'v' && "java"@[3] == 'a',
        "go"@.len() == 2,
        "go"@[0] == 'g' && "go"@[1] == 'o',
        "rb"@.len() == 2,
        "rb"@[0] == 'r' && "rb"@[1] == 'b',
        "php"@.len() == 3,
        "php"@[0] == 'p' && "php"@[1] == 'h' && "php"@[2] == 'p',
        "html"@.len() == 4,
        "html"@[0] == 'h' && "html"@[1] == 't' && "html"@[2] == 'm' && "html"@[3] == 'l',
        "css"@.len() == 3,
        "css"@[0] == 'c' && "css"@[1] == 's' && "css"@[2] == 's',
        "json"@.len() == 4,
        "json"@[0] == 'j' && "json"@[1] == 's' && "json"@[2] == 'o' && "json"@[3] == 'n',
        "xml"@.len() == 3,
        "xml"@[0] == 'x' && "xml"@[1] == 'm' && "xml"@[2] == 'l',
        "yaml"@.len() == 4,
        "yaml"@[0] == 'y' && "yaml"@[1] == 'a' && "yaml"@[2] == 'm' && "yaml"@[3] == 'l',
        "yml"@.len() == 3,
        "yml"@[0] == 'y' && "yml"@[1] == 'm' && "yml"@[2] == 'l',
        "sh"@.len() == 2,
        "sh"@[0] == 's' && "sh"@[1] == 'h',
        "toml"@.len() == 4,
        "toml"@[0] == 't' && "toml"@[1] == 'o' && "toml"@[2] == 'm' && "toml"@[3] == 'l',
        "sql"@.len() == 3,
        "sql"@[0] == 's' && "sql"@[1] == 'q' && "sql"@[2] == 'l',
        "lua"@.len() == 3,
        "lua"@[0] == 'l' && "lua"@[1] == 'u' && "lua"@[2] == 'a',
        "swift"@.len() == 5,
        "swift"@[0] == 's' && "swift"@[1] == 'w' && "swift"@[2] == 'i' && "swift"@[3] == 'f' && "swift"@[4] == 't',
        "kt"@.len() == 2,
        "kt"@[0] == 'k' && "kt"@[1] == 't',
{
    reveal_strlit("rs");
    reveal_strlit("py");
    reveal_strlit("js");
    reveal_strlit("jsx");
    reveal_strlit("tsx");
    reveal_strlit("c");
    reveal_strlit("cpp");
    reveal_strlit("cc");
    reveal_strlit("h");
    reveal_strlit("hpp");
    reveal_strlit("java");
    reveal_strlit("go");
    reveal_strlit("rb");
    reveal_strlit("php");
    reveal_strlit("html");
    reveal_strlit("css");
    reveal_strlit("json");
    reveal_strlit("xml");
    reveal_strlit("yaml");
    reveal_strlit("yml");
    reveal_strlit("sh");
    reveal_strlit("toml");
    reveal_strlit("sql");
    reveal_strlit("lua");
    reveal_strlit("swift");
    reveal_strlit("kt");
}

proof fn lemma_spelled_applications()
    ensures
        "exe"@.len() == 3,
        "exe"@[0] == 'e' && "exe"@[1] == 'x' && "exe"@[2] == 'e',
        "msi"@.len() == 3,
        "msi"@[0] == 'm' && "msi"@[1] == 's' && "msi"@[2] == 'i',
        "appimage"@.len() == 8,
        "appimage"@[0] == 'a' && "appimage"@[1] == 'p' && "appimage"@[2] == 'p' && "appimage"@[3] == 'i'
            && "appimage"@[4] == 'm' && "appimage"@[5] == 'a' && "appimage"@[6] == 'g' && "appimage"@[7] == 'e',
        "deb"@.len() == 3,
        "deb"@[0] == 'd' && "deb"@[1] == 'e' && "deb"@[2] == 'b',
        "rpm"@.len() == 3,
        "rpm"@[0] == 'r' && "rpm"@[1] == 'p' && "rpm"@[2] == 'm',
        "flatpak"@.len() == 7,
        "flatpak"@[0] == 'f' && "flatpak"@[1] == 'l' && "flatpak"@[2] == 'a' && "flatpak"@[3] == 't'
            && "flatpak"@[4] == 'p' && "flatpak"@[5] == 'a' && "flatpak"@[6] == 'k',
        "snap"@.len() == 4,
        "snap"@[0] == 's' && "snap"@[1] == 'n' && "snap"@[2] == 'a' && "snap"@[3] == 'p',
        "apk"@.len() == 3,
        "apk"@[0] == 'a' && "apk"@[1] == 'p' && "apk"@[2] == 'k',
        "dmg"@.len() == 3,
        "dmg"@[0] == 'd' && "dmg"@[1] == 'm' && "dmg"@[2] == 'g',
        "bin"@.len() == 3,
        "bin"@[0] == 'b' && "bin"@[1] == 'i' && "bin"@[2] == 'n',
        "run"@.len() == 3,
        "run"@[0] == 'r' && "run"@[1] == 'u' && "run"@[2] == 'n',
{
    reveal_strlit("exe");
    reveal_strlit("msi");
    reveal_strlit("appimage");
    reveal_strlit("deb");
    reveal_strlit("rpm");
    reveal_strlit("flatpak");
    reveal_strlit("snap");
    reveal_strlit("apk");
    reveal_strlit("dmg");
    reveal_strlit("bin");
    reveal_strlit("run");
}

proof fn lemma_videos(ext: Seq<char>)
    ensures
        (ext == "mp4"@ || ext == "mkv"@ || ext == "mov"@ || ext == "avi"@ || ext == "webm"@
        || ext == "flv"@ || ext == "wmv"@ || ext == "m4v"@ || ext == "mpg"@ || ext == "mpeg"@
        || ext == "3gp"@ || ext == "ts"@) ==> extension_category(ext) == Category::Videos,
{
    lemma_spelled_videos();
}

proof fn lemma_audio(ext: Seq<char>)
    ensures
        (ext == "mp3"@ || ext == "flac"@ || ext == "wav"@ || ext == "ogg"@ || ext == "m4a"@
        || ext == "aac"@ || ext == "wma"@ || ext == "opus"@ || ext == "aiff"@ || ext == "mid"@) ==> extension_category(ext) == Category::Audio,
{
    lemma_spelled_videos();
    lemma_spelled_audio();
}

proof fn lemma_images(ext: Seq<char>)
    ensures
        (ext == "jpg"@ || ext == "jpeg"@ || ext == "png"@ || ext == "gif"@ || ext == "bmp"@
        || ext == "webp"@ || ext == "svg"@ || ext == "heic"@ || ext == "heif"@ || ext == "tiff"@
        || ext == "tif"@ || ext == "raw"@ || ext == "cr2"@ || ext == "nef"@ || ext == "ico"@
        || ext == "psd"@) ==> extension_category(ext) == Category::Images,
{
    lemma_spelled_videos();
    lemma_spelled_audio();
    lemma_spelled_images();
}

proof fn lemma_documents(ext: Seq<char>)
    ensures
        (ext == "pdf"@ || ext == "doc"@ || ext == "docx"@ || ext == "xls"@ || ext == "xlsx"@
        || ext == "ppt"@ || ext == "pptx"@ || ext == "odt"@ || ext == "ods"@ || ext == "odp"@
        || ext == "txt"@ || ext == "md"@ || ext == "rtf"@ || ext == "epub"@ || ext == "csv"@
        || ext == "tex"@) ==> extension_category(ext) == Category::Documents,
{
    lemma_spelled_videos();
    lemma_spelled_audio();
    lemma_spelled_images();
    lemma_spelled_documents();
}

proof fn lemma_archives(ext: Seq<char>)
    ensures
        (ext == "zip"@ || ext == "tar"@ || ext == "gz"@ || ext == "bz2"@ || ext == "xz"@
        || ext == "7z"@ || ext == "rar"@ || ext == "zst"@ || ext == "tgz"@ || ext == "iso"@
        || ext == "lz"@ || ext == "lzma"@ || ext == "cab"@) ==> extension_category(ext) == Category::Archives,
{
    lemma_spelled_videos();
    lemma_spelled_audio();
    lemma_spelled_images();
    lemma_spelled_documents();
    lemma_spelled_archives();
}

proof fn lemma_code(ext: Seq<char>)
    ensures
        (ext == "rs"@ || ext == "py"@ || ext == "js"@ || ext == "jsx"@ || ext == "tsx"@
        || ext == "c"@ || ext == "cpp"@ || ext == "cc"@ || ext == "h"@ || ext == "hpp"@
        || ext == "java"@ || ext == "go"@ || ext == "rb"@ || ext == "php"@ || ext == "html"@
        || ext == "css"@ || ext == "json"@ || ext == "xml"@ || ext == "yaml"@ || ext == "yml"@
        || ext == "sh"@ || ext == "toml"@ || ext == "sql"@ || ext == "lua"@ || ext == "swift"@
        || ext == "kt"@) ==> extension_category(ext) == Category::Code,
{
    lemma_spelled_videos();
    lemma_spelled_audio();
    lemma_spelled_images();
    lemma_spelled_documents();
    lemma_spelled_archives();
    lemma_spelled_code();
}

proof fn lemma_applications(ext: Seq<char>)
    ensures
        (ext == "exe"@ || ext == "msi"@ || ext == "appimage"@ || ext == "deb"@ || ext == "rpm"@
        || ext == "flatpak"@ || ext == "snap"@ || ext == "apk"@ || ext == "dmg"@ || ext == "bin"@
        || ext == "run"@) ==> extension_category(ext) == Category::Applications,
{
    lemma_spelled_videos();
    lemma_spelled_audio();
    lemma_spelled_images();
    lemma_spelled_documents();
    lemma_spelled_archives();
    lemma_spelled_code();
    lemma_spelled_applications();
}

/// What an extension in lower case stands for: every extension that is listed stands for
/// its category, and any other for none of them.
pub proof fn extensions_stand_for_categories(ext: &str, category: Category)
    requires
        call_ensures(Category::from_extension, (ext,), category),
    ensures
        category is Videos <==> (ext@ == "mp4"@ || ext@ == "mkv"@ || ext@ == "mov"@ || ext@ == "avi"@ || ext@ == "webm"@
            || ext@ == "flv"@ || ext@ == "wmv"@ || ext@ == "m4v"@ || ext@ == "mpg"@ || ext@ == "mpeg"@
            || ext@ == "3gp"@ || ext@ == "ts"@),
        category is Audio <==> (ext@ == "mp3"@ || ext@ == "flac"@ || ext@ == "wav"@ || ext@ == "ogg"@ || ext@ == "m4a"@
            || ext@ == "aac"@ || ext@ == "wma"@ || ext@ == "opus"@ || ext@ == "aiff"@ || ext@ == "mid"@),
        category is Images <==> (ext@ == "jpg"@ || ext@ == "jpeg"@ || ext@ == "png"@ || ext@ == "gif"@ || ext@ == "bmp"@
            || ext@ == "webp"@ || ext@ == "svg"@ || ext@ == "heic"@ || ext@ == "heif"@ || ext@ == "tiff"@
            || ext@ == "tif"@ || ext@ == "raw"@ || ext@ == "cr2"@ || ext@ == "nef"@ || ext@ == "ico"@
            || ext@ == "psd"@),
        category is Documents <==> (ext@ == "pdf"@ || ext@ == "doc"@ || ext@ == "docx"@ || ext@ == "xls"@ || ext@ == "xlsx"@
            || ext@ == "ppt"@ || ext@ == "pptx"@ || ext@ == "odt"@ || ext@ == "ods"@ || ext@ == "odp"@
            || ext@ == "txt"@ || ext@ == "md"@ || ext@ == "rtf"@ || ext@ == "epub"@ || ext@ == "csv"@
            || ext@ == "tex"@),
        category is Archives <==> (ext@ == "zip"@ || ext@ == "tar"@ || ext@ == "gz"@ || ext@ == "bz2"@ || ext@ == "xz"@
            || ext@ == "7z"@ || ext@ == "rar"@ || ext@ == "zst"@ || ext@ == "tgz"@ || ext@ == "iso"@
            || ext@ == "lz"@ || ext@ == "lzma"@ || ext@ == "cab"@),
        category is Code <==> (ext@ == "rs"@ || ext@ == "py"@ || ext@ == "js"@ || ext@ == "jsx"@ || ext@ == "tsx"@
            || ext@ == "c"@ || ext@ == "cpp"@ || ext@ == "cc"@ || ext@ == "h"@ || ext@ == "hpp"@
            || ext@ == "java"@ || ext@ == "go"@ || ext@ == "rb"@ || ext@ == "php"@ || ext@ == "html"@
            || ext@ == "css"@ || ext@ == "json"@ || ext@ == "xml"@ || ext@ == "yaml"@ || ext@ == "yml"@
            || ext@ == "sh"@ || ext@ == "toml"@ || ext@ == "sql"@ || ext@ == "lua"@ || ext@ == "swift"@
            || ext@ == "kt"@),
        category is Applications <==> (ext@ == "exe"@ || ext@ == "msi"@ || ext@ == "appimage"@ || ext@ == "deb"@ || ext@ == "rpm"@
            || ext@ == "flatpak"@ || ext@ == "snap"@ || ext@ == "apk"@ || ext@ == "dmg"@ || ext@ == "bin"@
            || ext@ == "run"@),
{
    lemma_videos(ext@);
    lemma_audio(ext@);
    lemma_images(ext@);
    lemma_documents(ext@);
    lemma_archives(ext@);
    lemma_code(ext@);
    lemma_applications(ext@);
}

/// A file is classified by what stands behind the last dot of its name, in upper or lower
/// case, as long as something stands before the dot.
pub proof fn files_are_classified_by_their_extension(
    name: &str,
    stem: Seq<char>,
    ext: Seq<char>,
    lowered: &str,
    category: Category,
    meant: Category,
)
    requires
        name@ == stem.push('.') + ext,
        stem.len() > 0,
        !ext.contains('.'),
        lowered@ == ext.map_values(
            |c: char|
                if 'A' <= c <= 'Z' {
                    (c as u32 + 32) as char
                } else {
                    c
                },
        ),
        call_ensures(Category::classify, (name,), category),
        call_ensures(Category::from_extension, (lowered,), meant),
    ensures
        ext.len() > 0 ==> category == meant,
        ext.len() == 0 ==> category is Other,
{
    let n = name@;
    let dot = stem.len() as int;
    n.index_of_last_ensures('.');
    assert(n[dot] == '.');
    assert forall|k: int| dot < k < n.len() implies n[k] != '.' by {
        assert(ext[k - dot - 1] == n[k]);
        assert(ext.contains(ext[k - dot - 1]));
    }
    assert(n.index_of_last('.') == Some(dot));
    assert(n.skip(dot + 1) =~= ext);
    assert(ext.map_values(|c: char| ascii_lower(c)) =~= lowered@);
}

/// A file without an extension, a dotfile among them, belongs to no category.
pub proof fn files_without_extension_are_other(name: &str, category: Category)
    requires
        forall|i: int| 0 < i < name@.len() ==> name@[i] != '.',
        call_ensures(Category::classify, (name,), category),
    ensures
        category is Other,
{
    names_without_extension_are_other(name@);
}

/// The extension of a name is what stands behind its last dot, if anything stands before
/// the dot and behind it.
pub proof fn extensions_stand_behind_the_last_dot(name: &str, ext: Option<&str>)
    requires
        call_ensures(extension_of, (name,), ext),
    ensures
        ext matches Some(e) ==> e@.len() > 0 && !e@.contains('.') && e@.len() + 1 < name@.len() && name@.skip(
            name@.len() - e@.len(),
        ) == e@ && name@[name@.len() - e@.len() - 1] == '.',
        ext is None ==> name@.len() == 0 || name@.last() == '.' || forall|i: int| 0 < i < name@.len() ==> name@[i] != '.',
{
    let n = name@;
    n.index_of_last_ensures('.');
    if let Some(e) = ext {
        let dot = n.index_of_last('.')->0;
        assert(e@ == n.skip(dot + 1));
        assert forall|i: int| 0 <= i < e@.len() implies e@[i] != '.' by {
            assert(e@[i] == n[dot + 1 + i]);
        }
    }
}

/// The bytes of the files of a category, at every depth of a tree.
pub open spec fn bytes_of(root: NodeView, category: Category) -> int {
    files(root).filter(|f: NodeView| category_of(f.name) == category).map_values(|f: NodeView| f.size as int).fold_left(
        0,
        |sum: int, size: int| sum + size,
    )
}

proof fn lemma_bytes_of(root: NodeView, category: Category)
    ensures
        bytes_in(files(root), category) == bytes_of(root, category),
{
    let p = |f: NodeView| category_of(f.name) == category;
    assert(belongs_to(category) =~= p);
    sizes_add_up(files(root).filter(p));
}

/// Every category with any bytes in the tree is listed, once, with all the bytes that
/// its files have at every depth, and no other is; the largest comes first, and by label
/// where they are equally large; and together they make up the bytes of all files.
pub proof fn categories_total_their_files(root: &Node, totals: Vec<(Category, u64)>, category: Category, bytes: u64)
    requires
        forall|c: Category| #[trigger] bytes_of(root@, c) <= u64::MAX,
        call_ensures(category_totals, (root,), totals),
    ensures
        totals@.contains((category, bytes)) <==> bytes > 0 && bytes == bytes_of(root@, category),
        forall|i: int, j: int| 0 <= i < j < totals@.len() ==> (#[trigger] totals@[i]).0 != (#[trigger] totals@[j]).0,
        forall|i: int, j: int|
            0 <= i < j < totals@.len() ==> (#[trigger] totals@[i]).1 > (#[trigger] totals@[j]).1 || (totals@[i].1
                == totals@[j].1 && text_le(label_of(totals@[i].0), label_of(totals@[j].0))),
        totals@.map_values(|t: (Category, u64)| t.1 as int).fold_left(0, |sum: int, b: int| sum + b) == files(
            root@,
        ).map_values(|f: NodeView| f.size as int).fold_left(0, |sum: int, size: int| sum + size),
{
    assert forall|c: Category| #[trigger] bytes_in(files(root@), c) <= u64::MAX by {
        lemma_bytes_of(root@, c);
        assert(bytes_of(root@, c) <= u64::MAX);
    }
    lemma_bytes_of(root@, category);
    totals_list_each_used_category_once(root@, category, bytes);
    totals_make_up_the_size(root@);
    sizes_add_up(files(root@));
    totals_add_up(totals@);
    <(Category, u64) as Ranked>::rank_is_total();
    assert forall|i: int, j: int| 0 <= i < j < totals@.len() implies (#[trigger] totals@[i]).1 > (
    #[trigger] totals@[j]).1 || (totals@[i].1 == totals@[j].1 && text_le(label_of(totals@[i].0), label_of(totals@[j].0))) by {
        let le = total_le();
        assert(le(totals@[i], totals@[j]));
    }
}

/// A sum of totals adds up the bytes of every one of them, once.
pub proof fn totals_add_up(s: Seq<(Category, u64)>)
    ensures
        sum_totals(s) == s.map_values(|t: (Category, u64)| t.1 as int).fold_left(0, |sum: int, b: int| sum + b),
    decreases s.len(),
{
    let f = |t: (Category, u64)| t.1 as int;
    if s.len() > 0 {
        totals_add_up(s.drop_last());
        assert(s.map_values(f).drop_last() =~= s.drop_last().map_values(f));
    }
}

/// The files of a category are all its files, at every depth, each as often as it is
/// there; the largest comes first, and by name where they are equally large.
pub proof fn files_of_a_category_are_all_listed(root: &Node, category: Category, found: Vec<&Node>)
    requires
        call_ensures(files_by_size, (root, category), found),
    ensures
        views(found@).to_multiset() == files(root@).filter(
            |f: NodeView| category_of(f.name) == category,
        ).to_multiset(),
        forall|i: int, j: int|
            0 <= i < j < found@.len() ==> (#[trigger] found@[i])@.size > (#[trigger] found@[j])@.size || (found@[i]@.size
                == found@[j]@.size && text_le(found@[i]@.name, found@[j]@.name)),
{
    let p = |f: NodeView| category_of(f.name) == category;
    let all = files_in(root@, category);
    assert(belongs_to(category) =~= p);
    node_order_is_total();
    stable_sort_exists(all, node_le());
    let r = views(found@);
    assert forall|i: int, j: int| 0 <= i < j < found@.len() implies (#[trigger] found@[i])@.size > (
    #[trigger] found@[j])@.size || (found@[i]@.size == found@[j]@.size && text_le(found@[i]@.name, found@[j]@.name)) by {
        let le = node_le();
        assert(le(r[i], r[j]));
        assert(r[i] == found@[i]@ && r[j] == found@[j]@);
    }
}

/// The largest files of a category are the first ones of all of them, as many as asked
/// for or as there are.
pub proof fn the_largest_files_come_first(root: &Node, category: Category, limit: usize, top: Vec<&Node>, all: Vec<&Node>)
    requires
        call_ensures(largest_in_category, (root, category, limit), top),
        call_ensures(files_by_size, (root, category), all),
    ensures
        views(top@).is_prefix_of(views(all@)),
        top@.len() == (if limit <= all@.len() {
            limit as nat
        } else {
            all@.len()
        }),
{
    assert(views(top@).len() == top@.len() && views(all@).len() == all@.len());
}

/// Categories have different names.
pub proof fn categories_have_different_names(a: Category, b: Category, name: &'static str, other: &'static str)
    requires
        call_ensures(Category::label, (a,), name),
        call_ensures(Category::label, (b,), other),
    ensures
        name@ == other@ <==> a == b,
        a is Videos ==> name@ == "Videos"@,
        a is Audio ==> name@ == "Audio"@,
        a is Images ==> name@ == "Images"@,
        a is Documents ==> name@ == "Documents"@,
        a is Archives ==> name@ == "Archives"@,
        a is Code ==> name@ == "Code"@,
        a is Applications ==> name@ == "Applications"@,
        a is Other ==> name@ == "Other"@,
{
    reveal_strlit("Videos");
    reveal_strlit("Audio");
    reveal_strlit("Images");
    reveal_strlit("Documents");
    reveal_strlit("Archives");
    reveal_strlit("Code");
    reveal_strlit("Applications");
    reveal_strlit("Other");
    assert("Videos"@[0] == 'V' && "Audio"@[1] == 'u' && "Images"@[0] == 'I' && "Documents"@[0] == 'D');
    assert("Archives"@[1] == 'r' && "Code"@[0] == 'C' && "Applications"@[1] == 'p' && "Other"@[0] == 'O');
}

/// Files of a category of the same size and the same name stand in the order of the tree.
pub proof fn equal_files_stand_as_in_the_tree(root: &Node, category: Category, found: Vec<&Node>, x: NodeView)
    requires
        call_ensures(files_by_size, (root, category), found),
    ensures
        views(found@).filter(|n: NodeView| n.size == x.size && n.name == x.name) == files(root@).filter(
            |f: NodeView| category_of(f.name) == category,
        ).filter(|n: NodeView| n.size == x.size && n.name == x.name),
{
    assert(belongs_to(category) =~= (|f: NodeView| category_of(f.name) == category));
    equal_nodes_keep_their_order(files_in(root@, category), x);
}

/// All categories that there are stand in the list of them, each once.
pub proof fn every_category_is_known(category: Category)
    ensures
        exists|i: int| 0 <= i < Category::ALL@.len() && #[trigger] Category::ALL@[i] == category,
        forall|i: int, j: int| 0 <= i < j < Category::ALL@.len() ==> #[trigger] Category::ALL@[i] != #[trigger] Category::ALL@[j],
{
    let all = Category::ALL@;
    assert(all.len() == 8);
    assert(all[0] is Videos && all[1] is Audio && all[2] is Images && all[3] is Documents);
    assert(all[4] is Archives && all[5] is Code && all[6] is Applications && all[7] is Other);
}

} // verus!
