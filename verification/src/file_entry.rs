//! File records: language tags derived from extensions, agent marks, and
//! the per-file metadata held in the file tree.
use vstd::prelude::*;
use crate::text::{lower_of, str_eq, to_lower};
use vstd::string::StrSliceExecFns;
use vstd::string::StringExecFns;

verus! {

#[derive(Clone, Copy, PartialEq, Eq, Hash, Debug, Structural)]
pub enum Language {
    Rust,
    Python,
    TypeScript,
    JavaScript,
    Go,
    Java,
    C,
    Cpp,
    Ruby,
    Shell,
    Markdown,
    Json,
    Yaml,
    Toml,
    Html,
    Css,
    Sql,
    Other,
}

/// The language that a lowercased extension maps to.
pub open spec fn spec_language_of_ext(l: Seq<char>) -> Language {
    if l == "rs"@ {
        Language::Rust
    } else if l == "py"@ || l == "pyi"@ {
        Language::Python
    } else if l == "ts"@ || l == "tsx"@ {
        Language::TypeScript
    } else if l == "js"@ || l == "jsx"@ || l == "mjs"@ || l == "cjs"@ {
        Language::JavaScript
    } else if l == "go"@ {
        Language::Go
    } else if l == "java"@ {
        Language::Java
    } else if l == "c"@ || l == "h"@ {
        Language::C
    } else if l == "cpp"@ || l == "cc"@ || l == "cxx"@ || l == "hpp"@ || l == "hxx"@ || l == "hh"@ {
        Language::Cpp
    } else if l == "rb"@ {
        Language::Ruby
    } else if l == "sh"@ || l == "bash"@ || l == "zsh"@ || l == "fish"@ {
        Language::Shell
    } else if l == "md"@ || l == "mdx"@ {
        Language::Markdown
    } else if l == "json"@ || l == "jsonc"@ {
        Language::Json
    } else if l == "yml"@ || l == "yaml"@ {
        Language::Yaml
    } else if l == "toml"@ {
        Language::Toml
    } else if l == "html"@ || l == "htm"@ {
        Language::Html
    } else if l == "css"@ || l == "scss"@ || l == "less"@ {
        Language::Css
    } else if l == "sql"@ {
        Language::Sql
    } else {
        Language::Other
    }
}

/// Index of the last occurrence of `c` in `s`, or -1 when absent.
pub open spec fn spec_rfind_char(s: Seq<char>, c: char) -> int
    decreases s.len(),
{
    if s.len() == 0 {
        -1
    } else if s.last() == c {
        s.len() - 1
    } else {
        spec_rfind_char(s.drop_last(), c)
    }
}

/// The extension of a path: what follows the last dot of the last
/// component, provided that dot is not the component's first character.
pub open spec fn spec_extension_of(path: Seq<char>) -> Option<Seq<char>> {
    let name_start = spec_rfind_char(path, '/') + 1;
    let name = path.subrange(name_start, path.len() as int);
    let dot = spec_rfind_char(name, '.');
    if dot > 0 {
        Some(name.subrange(dot + 1, name.len() as int))
    } else {
        None
    }
}

/// The language a path maps to, by its extension.
pub open spec fn spec_language_of_path(path: Seq<char>) -> Language {
    match spec_extension_of(path) {
        Some(ext) => spec_language_of_ext(lower_of(ext)),
        None => Language::Other,
    }
}

proof fn lemma_rfind_char_at(s: Seq<char>, c: char, i: int)
    requires
        0 <= i < s.len(),
        s[i] == c,
        forall|k: int| i < k < s.len() ==> s[k] != c,
    ensures
        spec_rfind_char(s, c) == i,
    decreases s.len(),
{
    if i < s.len() - 1 {
        lemma_rfind_char_at(s.drop_last(), c, i);
    }
}

proof fn lemma_rfind_char_none(s: Seq<char>, c: char)
    requires
        forall|k: int| 0 <= k < s.len() ==> s[k] != c,
    ensures
        spec_rfind_char(s, c) == -1,
    decreases s.len(),
{
    if s.len() > 0 {
        lemma_rfind_char_none(s.drop_last(), c);
    }
}

/// Index just past the last occurrence of `c`, or 0 when absent.
fn rfind_after(s: &str, c: char) -> (r: usize)
    ensures
        r == spec_rfind_char(s@, c) + 1,
        r <= s@.len(),
{
    let slen: usize = s.unicode_len();
    let mut i: usize = slen;
    while i > 0
        invariant
            i <= slen,
            slen == s@.len(),
            forall|k: int| i <= k < slen ==> s@[k] != c,
        decreases i,
    {
        if s.get_char(i - 1) == c {
            proof {
                lemma_rfind_char_at(s@, c, i - 1);
            }
            return i;
        }
        i -= 1;
    }
    proof {
        lemma_rfind_char_none(s@, c);
    }
    0
}

impl Language {
    /// Map an extension (any case) to its language tag.
    pub fn from_extension(ext: &str) -> (r: Self)
        ensures
            r == spec_language_of_ext(lower_of(ext@)),
    {
        let low = to_lower(ext);
        let l = low.as_str();
        if str_eq(l, "rs") {
            Language::Rust
        } else if str_eq(l, "py") || str_eq(l, "pyi") {
            Language::Python
        } else if str_eq(l, "ts") || str_eq(l, "tsx") {
            Language::TypeScript
        } else if str_eq(l, "js") || str_eq(l, "jsx") || str_eq(l, "mjs") || str_eq(l, "cjs") {
            Language::JavaScript
        } else if str_eq(l, "go") {
            Language::Go
        } else if str_eq(l, "java") {
            Language::Java
        } else if str_eq(l, "c") || str_eq(l, "h") {
            Language::C
        } else if str_eq(l, "cpp") || str_eq(l, "cc") || str_eq(l, "cxx") || str_eq(l, "hpp")
            || str_eq(l, "hxx") || str_eq(l, "hh") {
            Language::Cpp
        } else if str_eq(l, "rb") {
            Language::Ruby
        } else if str_eq(l, "sh") || str_eq(l, "bash") || str_eq(l, "zsh") || str_eq(l, "fish") {
            Language::Shell
        } else if str_eq(l, "md") || str_eq(l, "mdx") {
            Language::Markdown
        } else if str_eq(l, "json") || str_eq(l, "jsonc") {
            Language::Json
        } else if str_eq(l, "yml") || str_eq(l, "yaml") {
            Language::Yaml
        } else if str_eq(l, "toml") {
            Language::Toml
        } else if str_eq(l, "html") || str_eq(l, "htm") {
            Language::Html
        } else if str_eq(l, "css") || str_eq(l, "scss") || str_eq(l, "less") {
            Language::Css
        } else if str_eq(l, "sql") {
            Language::Sql
        } else {
            Language::Other
        }
    }

    /// Map a relative path to its language tag via the file extension.
    pub fn from_path(path: &str) -> (r: Self)
        ensures
            r == spec_language_of_path(path@),
    {
        let plen: usize = path.unicode_len();
        let name_start = rfind_after(path, '/');
        let name = path.substring_char(name_start, plen);
        let nlen: usize = name.unicode_len();
        let dot_after = rfind_after(name, '.');
        if dot_after > 1 {
            let ext = name.substring_char(dot_after, nlen);
            Language::from_extension(ext)
        } else {
            Language::Other
        }
    }

    /// Whether this language has a parser profile for symbol extraction.
    pub fn has_tree_sitter_support(&self) -> (r: bool)
        ensures
            r == spec_has_profile(*self),
    {
        matches!(
            self,
            Language::Rust | Language::Python | Language::TypeScript | Language::JavaScript
                | Language::Go,
        )
    }
}

/// The closed set of languages with a parser profile.
pub open spec fn spec_has_profile(l: Language) -> bool {
    l == Language::Rust || l == Language::Python || l == Language::TypeScript || l
        == Language::JavaScript || l == Language::Go
}

#[derive(Clone, Copy, PartialEq, Eq, Debug, Structural)]
pub enum FileMark {
    Documentation,
    Ignore,
    Test,
    Config,
    Generated,
    Custom,
}

/// The mark that a lowercased name maps to, when any.
pub open spec fn spec_mark_of(l: Seq<char>) -> Option<FileMark> {
    if l == "documentation"@ || l == "doc"@ || l == "docs"@ {
        Some(FileMark::Documentation)
    } else if l == "ignore"@ {
        Some(FileMark::Ignore)
    } else if l == "test"@ || l == "tests"@ {
        Some(FileMark::Test)
    } else if l == "config"@ || l == "configuration"@ {
        Some(FileMark::Config)
    } else if l == "generated"@ || l == "gen"@ {
        Some(FileMark::Generated)
    } else if l == "custom"@ {
        Some(FileMark::Custom)
    } else {
        None
    }
}

impl FileMark {
    /// Parse a mark name, case-insensitively, with its common aliases.
    pub fn from_str(s: &str) -> (r: Option<Self>)
        ensures
            r == spec_mark_of(lower_of(s@)),
    {
        let low = to_lower(s);
        let l = low.as_str();
        if str_eq(l, "documentation") || str_eq(l, "doc") || str_eq(l, "docs") {
            Some(FileMark::Documentation)
        } else if str_eq(l, "ignore") {
            Some(FileMark::Ignore)
        } else if str_eq(l, "test") || str_eq(l, "tests") {
            Some(FileMark::Test)
        } else if str_eq(l, "config") || str_eq(l, "configuration") {
            Some(FileMark::Config)
        } else if str_eq(l, "generated") || str_eq(l, "gen") {
            Some(FileMark::Generated)
        } else if str_eq(l, "custom") {
            Some(FileMark::Custom)
        } else {
            None
        }
    }
}

/// Metadata plus agent annotations for one indexed path. The modification
/// time is kept as milliseconds since the Unix epoch.
/// The two records agree on path, stat data, language and extraction
/// flag; only the agent-set definition and marks may differ.
pub open spec fn spec_entry_same_core(a: FileEntry, b: FileEntry) -> bool {
    a.rel_path@ == b.rel_path@ && a.size == b.size && a.modified == b.modified && a.language
        == b.language && a.symbols_extracted == b.symbols_extracted
}

#[derive(Clone, Debug)]
pub struct FileEntry {
    pub rel_path: String,
    pub size: u64,
    pub modified: i64,
    pub language: Language,
    /// Agent-set human-readable definition of what this file does.
    pub definition: Option<String>,
    /// Agent-set marks for categorization.
    pub marks: Vec<FileMark>,
    /// Whether symbol extraction has been attempted on this file.
    pub symbols_extracted: bool,
}

/// Copy a vector of marks, preserving its contents.
pub fn copy_marks(marks: &Vec<FileMark>) -> (r: Vec<FileMark>)
    ensures
        r@ == marks@,
{
    let mut r: Vec<FileMark> = Vec::new();
    let mut i: usize = 0;
    while i < marks.len()
        invariant
            i <= marks@.len(),
            r@ =~= marks@.take(i as int),
        decreases marks@.len() - i,
    {
        r.push(marks[i]);
        proof {
            assert(r@ =~= marks@.take((i + 1) as int));
        }
        i += 1;
    }
    proof {
        assert(marks@.take(marks@.len() as int) =~= marks@);
    }
    r
}

/// Copy an optional string, preserving its value.
pub fn dup_opt_string(o: &Option<String>) -> (r: Option<String>)
    ensures
        r == *o,
{
    match o {
        Some(s) => Some(s.clone()),
        None => None,
    }
}

/// Field-for-field agreement of two records (the mark vectors agree as
/// sequences).
pub open spec fn entry_equiv(a: FileEntry, b: FileEntry) -> bool {
    &&& a.rel_path@ == b.rel_path@
    &&& a.size == b.size
    &&& a.modified == b.modified
    &&& a.language == b.language
    &&& a.definition == b.definition
    &&& a.marks@ == b.marks@
    &&& a.symbols_extracted == b.symbols_extracted
}

impl FileEntry {
    /// An equivalent copy of this record.
    pub fn duplicate(&self) -> (r: Self)
        ensures
            entry_equiv(r, *self),
    {
        FileEntry {
            rel_path: self.rel_path.clone(),
            size: self.size,
            modified: self.modified,
            language: self.language,
            definition: crate::symbol::clone_opt_string(&self.definition),
            marks: copy_marks(&self.marks),
            symbols_extracted: self.symbols_extracted,
        }
    }

    /// A fresh record for a newly observed path: language derived from the
    /// path, no annotations, symbols not yet extracted.
    pub fn new(rel_path: String, size: u64, modified: i64) -> (r: Self)
        ensures
            r.rel_path == rel_path,
            r.size == size,
            r.modified == modified,
            r.language == spec_language_of_path(rel_path@),
            r.definition is None,
            r.marks@ =~= Seq::<FileMark>::empty(),
            !r.symbols_extracted,
    {
        let language = Language::from_path(rel_path.as_str());
        FileEntry {
            rel_path,
            size,
            modified,
            language,
            definition: None,
            marks: Vec::new(),
            symbols_extracted: false,
        }
    }
}

} // verus!
