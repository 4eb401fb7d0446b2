//! Built-in ignore rules applied on top of gitignore handling, and the
//! default size limit for indexed files.
use vstd::prelude::*;
use crate::text::{lower_of, spec_ends_with, str_ends_with, str_eq};

verus! {

/// Maximum file size (in bytes) to index by default. Larger files are
/// omitted from the tree entirely.
pub const DEFAULT_MAX_FILE_SIZE: u64 = 1000000;

/// Directory names that are never useful for code intelligence, whatever
/// the gitignore rules say.
pub open spec fn spec_ignored_dirs() -> Seq<Seq<char>> {
    seq![
        "node_modules"@,
        "vendor"@,
        "__pycache__"@,
        ".pycache"@,
        "target"@,
        "dist"@,
        "build"@,
        ".git"@,
        ".hg"@,
        ".svn"@,
        ".next"@,
        ".nuxt"@,
        ".output"@,
        ".cache"@,
        ".tox"@,
        ".mypy_cache"@,
        ".pytest_cache"@,
        ".ruff_cache"@,
        "venv"@,
        ".venv"@,
        "env"@,
        ".env"@,
        "coverage"@,
        ".coverage"@,
        ".nyc_output"@,
        "htmlcov"@,
        ".terraform"@,
        ".serverless"@,
    ]
}

fn ignored_dirs() -> (r: Vec<&'static str>)
    ensures
        r.deep_view() == spec_ignored_dirs(),
{
    let r: Vec<&'static str> = vec![
        "node_modules",
        "vendor",
        "__pycache__",
        ".pycache",
        "target",
        "dist",
        "build",
        ".git",
        ".hg",
        ".svn",
        ".next",
        ".nuxt",
        ".output",
        ".cache",
        ".tox",
        ".mypy_cache",
        ".pytest_cache",
        ".ruff_cache",
        "venv",
        ".venv",
        "env",
        ".env",
        "coverage",
        ".coverage",
        ".nyc_output",
        "htmlcov",
        ".terraform",
        ".serverless",
    ];
    proof {
        assert(r.deep_view() =~~= spec_ignored_dirs());
    }
    r
}

/// Suffixes (with their dot) of files that are binary or otherwise useless
/// for code reading, compared against the lowercased path.
pub open spec fn spec_ignored_suffixes() -> Seq<Seq<char>> {
    seq![
        ".min.js"@,
        ".min.css"@,
        ".pyc"@,
        ".pyo"@,
        ".class"@,
        ".o"@,
        ".so"@,
        ".dylib"@,
        ".dll"@,
        ".exe"@,
        ".a"@,
        ".lib"@,
        ".jar"@,
        ".war"@,
        ".ear"@,
        ".zip"@,
        ".tar"@,
        ".gz"@,
        ".bz2"@,
        ".xz"@,
        ".7z"@,
        ".rar"@,
        ".png"@,
        ".jpg"@,
        ".jpeg"@,
        ".gif"@,
        ".bmp"@,
        ".ico"@,
        ".svg"@,
        ".webp"@,
        ".mp3"@,
        ".mp4"@,
        ".avi"@,
        ".mov"@,
        ".wmv"@,
        ".flv"@,
        ".woff"@,
        ".woff2"@,
        ".ttf"@,
        ".eot"@,
        ".otf"@,
        ".pdf"@,
        ".doc"@,
        ".docx"@,
        ".xls"@,
        ".xlsx"@,
        ".ppt"@,
        ".pptx"@,
        ".db"@,
        ".sqlite"@,
        ".sqlite3"@,
        ".lock"@,
        ".map"@,
    ]
}

fn ignored_suffixes() -> (r: Vec<&'static str>)
    ensures
        r.deep_view() == spec_ignored_suffixes(),
{
    let r: Vec<&'static str> = vec![
        ".min.js",
        ".min.css",
        ".pyc",
        ".pyo",
        ".class",
        ".o",
        ".so",
        ".dylib",
        ".dll",
        ".exe",
        ".a",
        ".lib",
        ".jar",
        ".war",
        ".ear",
        ".zip",
        ".tar",
        ".gz",
        ".bz2",
        ".xz",
        ".7z",
        ".rar",
        ".png",
        ".jpg",
        ".jpeg",
        ".gif",
        ".bmp",
        ".ico",
        ".svg",
        ".webp",
        ".mp3",
        ".mp4",
        ".avi",
        ".mov",
        ".wmv",
        ".flv",
        ".woff",
        ".woff2",
        ".ttf",
        ".eot",
        ".otf",
        ".pdf",
        ".doc",
        ".docx",
        ".xls",
        ".xlsx",
        ".ppt",
        ".pptx",
        ".db",
        ".sqlite",
        ".sqlite3",
        ".lock",
        ".map",
    ];
    proof {
        assert(r.deep_view() =~~= spec_ignored_suffixes());
    }
    r
}

/// Whether a single path component names a directory in the built-in
/// ignore set.
pub fn should_ignore_dir(name: &str) -> (r: bool)
    ensures
        r == spec_ignored_dirs().contains(name@),
{
    let dirs = ignored_dirs();
    let mut i: usize = 0;
    while i < dirs.len()
        invariant
            i <= dirs.len(),
            dirs.deep_view() == spec_ignored_dirs(),
            forall|k: int| 0 <= k < i ==> spec_ignored_dirs()[k] != name@,
        decreases dirs.len() - i,
    {
        if str_eq(dirs[i], name) {
            return true;
        }
        i += 1;
    }
    false
}

/// Whether the lowercased path ends with an ignored suffix.
pub open spec fn spec_ignored_extension(path: Seq<char>) -> bool {
    exists|i: int|
        0 <= i < spec_ignored_suffixes().len() && spec_ends_with(
            lower_of(path),
            spec_ignored_suffixes()[i],
        )
}

/// Whether the path carries an extension in the built-in ignore set,
/// compared case-insensitively.
pub fn should_ignore_extension(path: &str) -> (r: bool)
    ensures
        r == spec_ignored_extension(path@),
{
    let low = crate::text::to_lower(path);
    let sufs = ignored_suffixes();
    let mut i: usize = 0;
    while i < sufs.len()
        invariant
            low@ == lower_of(path@),
            i <= sufs.len(),
            sufs.deep_view() == spec_ignored_suffixes(),
            forall|k: int|
                0 <= k < i ==> !spec_ends_with(lower_of(path@), spec_ignored_suffixes()[k]),
        decreases sufs.len() - i,
    {
        if str_ends_with(low.as_str(), sufs[i]) {
            proof {
                assert(spec_ends_with(lower_of(path@), spec_ignored_suffixes()[i as int]));
            }
            return true;
        }
        i += 1;
    }
    false
}

} // verus!
