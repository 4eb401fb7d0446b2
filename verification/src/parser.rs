//! Symbol extraction: the trusted boundary to the incremental parser and
//! the verified interpretation of its query captures.
use vstd::prelude::*;
use crate::file_entry::spec_has_profile;
use crate::file_tree::FileTree;
use crate::queries::get_language_config;
use crate::symbol::{Symbol, SymbolKind};
use crate::symbol_table::SymbolTable;
use crate::text::{spec_lines, str_eq};
use vstd::string::StrSliceExecFns;
use tree_sitter::StreamingIterator;
use tree_sitter::Language as TsLanguage;
use tree_sitter::Tree as TsTree;
use vstd::string::StringSliceAdditionalSpecFns;

verus! {

#[verifier::external_type_specification]
#[verifier::external_body]
pub struct ExTsLanguage(TsLanguage);

#[verifier::external_type_specification]
#[verifier::external_body]
pub struct ExTsTree(TsTree);

/// The grammar handle that belongs to a language tag.
pub uninterp spec fn parser_handle(lang: crate::file_entry::Language) -> tree_sitter::Language;

/// Relies on the grammar crates' `LANGUAGE` constants: one fixed parser
/// handle per supported language, none otherwise.
#[verifier::external_body]
pub(crate) fn lang_handle(lang: &crate::file_entry::Language) -> (r: Option<tree_sitter::Language>)
    ensures
        r is Some <==> spec_has_profile(*lang),
        match r {
            Some(h) => h == parser_handle(*lang),
            None => true,
        },
{
    match lang {
        crate::file_entry::Language::Rust => Some(tree_sitter_rust::LANGUAGE.into()),
        crate::file_entry::Language::Python => Some(tree_sitter_python::LANGUAGE.into()),
        crate::file_entry::Language::TypeScript => Some(
            tree_sitter_typescript::LANGUAGE_TYPESCRIPT.into(),
        ),
        crate::file_entry::Language::JavaScript => Some(tree_sitter_javascript::LANGUAGE.into()),
        crate::file_entry::Language::Go => Some(tree_sitter_go::LANGUAGE.into()),
        _ => None,
    }
}

/// Whether the language is profiled and its grammar actually loads, so
/// the parser-based paths apply; the regex fallbacks serve otherwise.
pub fn grammar_ready(lang: &crate::file_entry::Language) -> (r: bool)
    ensures
        r == (spec_has_profile(*lang) && grammar_loads(*lang)),
{
    match lang_handle(lang) {
        Some(handle) => ts_parse(&handle, lang, "").is_some(),
        None => false,
    }
}

/// The syntax tree that parsing a text under a language yields.
pub uninterp spec fn tree_of(lang: crate::file_entry::Language, text: Seq<char>) -> tree_sitter::Tree;

/// Whether a language's grammar loads into a parser: a fixed property of
/// the linked grammar and parser crates.
pub uninterp spec fn grammar_loads(lang: crate::file_entry::Language) -> bool;

/// Relies on tree_sitter::Parser::set_language and Parser::parse:
/// loading fails only on a version mismatch between the linked crates (a
/// fixed property of the build), and a parser with a language set and no
/// timeout or cancellation configured always yields a tree.
#[verifier::external_body]
pub(crate) fn ts_parse(handle: &tree_sitter::Language, lang: &crate::file_entry::Language, text: &str) -> (r: Option<
    tree_sitter::Tree,
>)
    requires
        *handle == parser_handle(*lang),
    ensures
        r is Some <==> grammar_loads(*lang),
        match r {
            Some(t) => t == tree_of(*lang, text@),
            None => true,
        },
{
    let mut parser = tree_sitter::Parser::new();
    if parser.set_language(handle).is_err() {
        return None;
    }
    parser.parse(text, None)
}

/// One capture handed back by the query engine: its match group, capture
/// name, node text, byte range and zero-based row range.
pub struct RawCapture {
    pub grp: usize,
    pub name: String,
    pub text: String,
    pub sb: usize,
    pub eb: usize,
    pub sr: usize,
    pub er: usize,
}

/// Ghost image of a capture.
pub struct CaptureView {
    pub grp: int,
    pub name: Seq<char>,
    pub text: Seq<char>,
    pub sb: int,
    pub eb: int,
    pub sr: int,
    pub er: int,
}

impl View for RawCapture {
    type V = CaptureView;

    open spec fn view(&self) -> CaptureView {
        CaptureView {
            grp: self.grp as int,
            name: self.name@,
            text: self.text@,
            sb: self.sb as int,
            eb: self.eb as int,
            sr: self.sr as int,
            er: self.er as int,
        }
    }
}

impl DeepView for RawCapture {
    type V = CaptureView;

    open spec fn deep_view(&self) -> CaptureView {
        self.view()
    }
}

/// The captures that running a query over the parsed text yields, in
/// match order, restricted to the byte window `[lo, hi)`.
pub uninterp spec fn ts_query_caps(
    lang: crate::file_entry::Language,
    query: Seq<char>,
    text: Seq<char>,
    lo: int,
    hi: int,
) -> Seq<CaptureView>;

/// Relies on tree_sitter::Query and QueryCursor: matches are reported
/// deterministically for a given grammar, query and text; every node lies
/// inside the parsed buffer, and a node's row never exceeds its byte
/// offset. Each tuple carries match group, capture name, node text, byte
/// range and row range.
#[verifier::external_body]
fn ts_query_collect(
    handle: &tree_sitter::Language,
    lang: &crate::file_entry::Language,
    tree: &tree_sitter::Tree,
    qsrc: &str,
    text: &str,
    lo: usize,
    hi: usize,
) -> (r: Vec<(usize, String, String, usize, usize, usize, usize)>)
    requires
        *handle == parser_handle(*lang),
        *tree == tree_of(*lang, text@),
    ensures
        r@.len() == ts_query_caps(*lang, qsrc@, text@, lo as int, hi as int).len(),
        forall|k: int|
            0 <= k < r@.len() ==> {
                let c = ts_query_caps(*lang, qsrc@, text@, lo as int, hi as int)[k];
                &&& (#[trigger] r@[k]).0 == c.grp
                &&& r@[k].1@ == c.name
                &&& r@[k].2@ == c.text
                &&& r@[k].3 == c.sb
                &&& r@[k].4 == c.eb
                &&& r@[k].5 == c.sr
                &&& r@[k].6 == c.er
                &&& 0 <= c.sb <= c.eb <= text.spec_bytes().len()
                &&& 0 <= c.sr <= c.er <= c.eb
            },
{
    let Ok(query) = tree_sitter::Query::new(handle, qsrc) else { return vec![] };
    let mut cur = tree_sitter::QueryCursor::new();
    cur.set_byte_range(lo..hi);
    let mut ms = cur.matches(&query, tree.root_node(), text.as_bytes());
    let mut out = vec![];
    let mut g: usize = 0;
    while let Some(m) = ms.next() {
        for c in m.captures() {
            out.push((g, query.capture_names()[c.index as usize].to_string(), c.node.utf8_text(text.as_bytes()).unwrap_or_default().to_string(), c.node.start_byte(), c.node.end_byte(), c.node.start_position().row, c.node.end_position().row));
        }
        g += 1;
    }
    out
}

/// Run a query over a parsed text and hand back its captures in match
/// order, restricted to the byte window.
pub(crate) fn ts_query_run(
    handle: &tree_sitter::Language,
    lang: &crate::file_entry::Language,
    tree: &tree_sitter::Tree,
    qsrc: &str,
    text: &str,
    lo: usize,
    hi: usize,
) -> (r: Vec<RawCapture>)
    requires
        *handle == parser_handle(*lang),
        *tree == tree_of(*lang, text@),
    ensures
        r.deep_view() == ts_query_caps(*lang, qsrc@, text@, lo as int, hi as int),
        forall|k: int|
            0 <= k < r.deep_view().len() ==> {
                let c = #[trigger] r.deep_view()[k];
                0 <= c.sb <= c.eb <= text.spec_bytes().len() && 0 <= c.sr <= c.er <= c.eb
            },
{
    let ghost caps = ts_query_caps(*lang, qsrc@, text@, lo as int, hi as int);
    let raw = ts_query_collect(handle, lang, tree, qsrc, text, lo, hi);
    let mut out: Vec<RawCapture> = Vec::new();
    let mut i: usize = 0;
    while i < raw.len()
        invariant
            caps == ts_query_caps(*lang, qsrc@, text@, lo as int, hi as int),
            raw@.len() == caps.len(),
            forall|k: int|
                0 <= k < raw@.len() ==> {
                    let c = caps[k];
                    &&& (#[trigger] raw@[k]).0 == c.grp
                    &&& raw@[k].1@ == c.name
                    &&& raw@[k].2@ == c.text
                    &&& raw@[k].3 == c.sb
                    &&& raw@[k].4 == c.eb
                    &&& raw@[k].5 == c.sr
                    &&& raw@[k].6 == c.er
                    &&& 0 <= c.sb <= c.eb <= text.spec_bytes().len()
                    &&& 0 <= c.sr <= c.er <= c.eb
                },
            i <= raw@.len(),
            out@.len() == i,
            forall|k: int| 0 <= k < i ==> #[trigger] out.deep_view()[k] == caps[k],
        decreases raw@.len() - i,
    {
        let e = &raw[i];
        let cap = RawCapture {
            grp: e.0,
            name: e.1.clone(),
            text: e.2.clone(),
            sb: e.3,
            eb: e.4,
            sr: e.5,
            er: e.6,
        };
        let ghost pre = out@;
        let ghost pred = out.deep_view();
        proof {
            assert(cap@ == caps[i as int]);
        }
        out.push(cap);
        proof {
            assert(forall|k: int| 0 <= k < pre.len() ==> out@[k] == pre[k]);
            assert(forall|k: int|
                0 <= k < pre.len() ==> #[trigger] pred[k] == pre[k].deep_view());
            assert(forall|k: int|
                0 <= k < pre.len() ==> #[trigger] out.deep_view()[k] == pred[k]);
            assert(out.deep_view()[i as int] == cap@);
        }
        i += 1;
    }
    proof {
        assert(out.deep_view() =~= caps);
        assert forall|k: int| 0 <= k < out.deep_view().len() implies {
            let c = #[trigger] out.deep_view()[k];
            0 <= c.sb <= c.eb <= text.spec_bytes().len() && 0 <= c.sr <= c.er <= c.eb
        } by {
            assert(out.deep_view()[k] == caps[k]);
            assert(raw@[k].0 == caps[k].grp);
        }
    }
    out
}

/// Ghost image of a symbol record.
pub struct SymbolView {
    pub name: Seq<char>,
    pub kind: SymbolKind,
    pub file: Seq<char>,
    pub byte_range: (int, int),
    pub line_range: (int, int),
    pub language: crate::file_entry::Language,
    pub signature: Seq<char>,
    pub definition: Option<Seq<char>>,
    pub parent: Option<Seq<char>>,
}

impl DeepView for Symbol {
    type V = SymbolView;

    open spec fn deep_view(&self) -> SymbolView {
        SymbolView {
            name: self.name@,
            kind: self.kind,
            file: self.file@,
            byte_range: (self.byte_range.0 as int, self.byte_range.1 as int),
            line_range: (self.line_range.0 as int, self.line_range.1 as int),
            language: self.language,
            signature: self.signature@,
            definition: match self.definition {
                Some(d) => Some(d@),
                None => None,
            },
            parent: match self.parent {
                Some(p) => Some(p@),
                None => None,
            },
        }
    }
}

/// The first line of a definition span's text.
pub open spec fn spec_first_line(t: Seq<char>) -> Seq<char> {
    if spec_lines(t).len() > 0 {
        spec_lines(t)[0]
    } else {
        Seq::empty()
    }
}

/// Extraction state while walking one match group: the pending name,
/// kind, definition node and parent, plus the most recently seen
/// enclosing type name.
pub struct ExtractState {
    pub cur_impl: Option<Seq<char>>,
    pub name: Option<Seq<char>>,
    pub kind: Option<SymbolKind>,
    pub def: Option<CaptureView>,
    pub parent: Option<Seq<char>>,
}

/// A fresh group keeps only the enclosing-type memory.
pub open spec fn group_reset(st: ExtractState) -> ExtractState {
    ExtractState { cur_impl: st.cur_impl, name: None, kind: None, def: None, parent: None }
}

/// How one capture updates the state, by its capture name.
pub open spec fn apply_cap(st: ExtractState, c: CaptureView) -> ExtractState {
    if c.name == "function.name"@ {
        ExtractState { name: Some(c.text), kind: Some(SymbolKind::Function), ..st }
    } else if c.name == "function.def"@ {
        ExtractState { def: Some(c), ..st }
    } else if c.name == "method.name"@ {
        ExtractState {
            name: Some(c.text),
            kind: Some(SymbolKind::Method),
            parent: st.cur_impl,
            ..st
        }
    } else if c.name == "method.def"@ {
        ExtractState { def: Some(c), ..st }
    } else if c.name == "impl.type"@ {
        ExtractState { cur_impl: Some(c.text), ..st }
    } else if c.name == "struct.name"@ {
        ExtractState { name: Some(c.text), kind: Some(SymbolKind::Struct), ..st }
    } else if c.name == "struct.def"@ {
        ExtractState { def: Some(c), ..st }
    } else if c.name == "enum.name"@ {
        ExtractState { name: Some(c.text), kind: Some(SymbolKind::Enum), ..st }
    } else if c.name == "enum.def"@ {
        ExtractState { def: Some(c), ..st }
    } else if c.name == "trait.name"@ {
        ExtractState { name: Some(c.text), kind: Some(SymbolKind::Trait), ..st }
    } else if c.name == "trait.def"@ {
        ExtractState { def: Some(c), ..st }
    } else if c.name == "class.name"@ {
        ExtractState { name: Some(c.text), kind: Some(SymbolKind::Class), ..st }
    } else if c.name == "class.def"@ {
        ExtractState { def: Some(c), ..st }
    } else if c.name == "interface.name"@ {
        ExtractState { name: Some(c.text), kind: Some(SymbolKind::Interface), ..st }
    } else if c.name == "interface.def"@ {
        ExtractState { def: Some(c), ..st }
    } else if c.name == "type.name"@ {
        ExtractState { name: Some(c.text), kind: Some(SymbolKind::Type), ..st }
    } else if c.name == "type.def"@ {
        ExtractState { def: Some(c), ..st }
    } else if c.name == "const.name"@ || c.name == "static.name"@ {
        ExtractState { name: Some(c.text), kind: Some(SymbolKind::Constant), ..st }
    } else if c.name == "const.def"@ || c.name == "static.def"@ {
        ExtractState { def: Some(c), ..st }
    } else if c.name == "mod.name"@ {
        ExtractState { name: Some(c.text), kind: Some(SymbolKind::Module), ..st }
    } else if c.name == "mod.def"@ {
        ExtractState { def: Some(c), ..st }
    } else {
        st
    }
}

/// The record a finished group yields, when it captured a name, a kind
/// and a definition span.
pub open spec fn group_symbol(st: ExtractState, rel: Seq<char>, lang: crate::file_entry::Language) -> Option<
    SymbolView,
> {
    match (st.name, st.kind, st.def) {
        (Some(n), Some(k), Some(d)) => Some(
            SymbolView {
                name: n,
                kind: k,
                file: rel,
                byte_range: (d.sb, d.eb),
                line_range: (d.sr + 1, d.er + 1),
                language: lang,
                signature: spec_first_line(d.text),
                definition: None,
                parent: st.parent,
            },
        ),
        _ => None,
    }
}

pub open spec fn flush_seq(st: ExtractState, rel: Seq<char>, lang: crate::file_entry::Language) -> Seq<SymbolView> {
    match group_symbol(st, rel, lang) {
        Some(s) => seq![s],
        None => Seq::empty(),
    }
}

/// The symbols extracted from the captures at and after position `i`,
/// given the running state and the current group id.
pub open spec fn extract_from(
    caps: Seq<CaptureView>,
    i: int,
    st: ExtractState,
    cur_grp: int,
    rel: Seq<char>,
    lang: crate::file_entry::Language,
) -> Seq<SymbolView>
    decreases caps.len() - i,
{
    if i < 0 || i >= caps.len() {
        flush_seq(st, rel, lang)
    } else {
        let c = caps[i];
        if c.grp != cur_grp {
            flush_seq(st, rel, lang) + extract_from(
                caps,
                i + 1,
                apply_cap(group_reset(st), c),
                c.grp,
                rel,
                lang,
            )
        } else {
            extract_from(caps, i + 1, apply_cap(st, c), cur_grp, rel, lang)
        }
    }
}

pub open spec fn empty_state() -> ExtractState {
    ExtractState { cur_impl: None, name: None, kind: None, def: None, parent: None }
}

/// What symbol extraction produces from a capture stream: per match
/// group, the captured name, kind and definition span, the signature
/// being the first line of the span, methods carrying the most recently
/// seen enclosing type as parent.
pub open spec fn spec_extract(caps: Seq<CaptureView>, rel: Seq<char>, lang: crate::file_entry::Language) -> Seq<
    SymbolView,
> {
    if caps.len() == 0 {
        Seq::empty()
    } else {
        extract_from(caps, 0, empty_state(), caps[0].grp, rel, lang)
    }
}

impl RawCapture {
    /// An equal copy of this capture.
    pub fn duplicate(&self) -> (r: Self)
        ensures
            r == *self,
    {
        RawCapture {
            grp: self.grp,
            name: self.name.clone(),
            text: self.text.clone(),
            sb: self.sb,
            eb: self.eb,
            sr: self.sr,
            er: self.er,
        }
    }
}

/// Executable extraction state, the image of `ExtractState`.
pub struct ExecState {
    pub cur_impl: Option<String>,
    pub name: Option<String>,
    pub kind: Option<SymbolKind>,
    pub def: Option<RawCapture>,
    pub parent: Option<String>,
}

pub open spec fn opt_view(o: Option<String>) -> Option<Seq<char>> {
    match o {
        Some(s) => Some(s@),
        None => None,
    }
}

impl View for ExecState {
    type V = ExtractState;

    open spec fn view(&self) -> ExtractState {
        ExtractState {
            cur_impl: opt_view(self.cur_impl),
            name: opt_view(self.name),
            kind: self.kind,
            def: match self.def {
                Some(c) => Some(c@),
                None => None,
            },
            parent: opt_view(self.parent),
        }
    }
}

/// The first line of a text, the empty string for an empty text.
pub fn first_line(t: &str) -> (r: String)
    ensures
        r@ == spec_first_line(t@),
{
    let ls = crate::text::str_lines(t);
    if ls.len() > 0 {
        let r = ls[0].clone();
        proof {
            assert(ls.deep_view()[0] == ls@[0]@);
        }
        r
    } else {
        String::new()
    }
}

/// Update the state by one capture, as `apply_cap` says.
fn apply_cap_exec(st: ExecState, c: &RawCapture) -> (r: ExecState)
    ensures
        r@ == apply_cap(st@, c@),
{
    let n = c.name.as_str();
    if str_eq(n, "function.name") {
        ExecState { name: Some(c.text.clone()), kind: Some(SymbolKind::Function), ..st }
    } else if str_eq(n, "function.def") {
        ExecState { def: Some(c.duplicate()), ..st }
    } else if str_eq(n, "method.name") {
        let parent = crate::symbol::clone_opt_string(&st.cur_impl);
        ExecState { name: Some(c.text.clone()), kind: Some(SymbolKind::Method), parent, ..st }
    } else if str_eq(n, "method.def") {
        ExecState { def: Some(c.duplicate()), ..st }
    } else if str_eq(n, "impl.type") {
        ExecState { cur_impl: Some(c.text.clone()), ..st }
    } else if str_eq(n, "struct.name") {
        ExecState { name: Some(c.text.clone()), kind: Some(SymbolKind::Struct), ..st }
    } else if str_eq(n, "struct.def") {
        ExecState { def: Some(c.duplicate()), ..st }
    } else if str_eq(n, "enum.name") {
        ExecState { name: Some(c.text.clone()), kind: Some(SymbolKind::Enum), ..st }
    } else if str_eq(n, "enum.def") {
        ExecState { def: Some(c.duplicate()), ..st }
    } else if str_eq(n, "trait.name") {
        ExecState { name: Some(c.text.clone()), kind: Some(SymbolKind::Trait), ..st }
    } else if str_eq(n, "trait.def") {
        ExecState { def: Some(c.duplicate()), ..st }
    } else if str_eq(n, "class.name") {
        ExecState { name: Some(c.text.clone()), kind: Some(SymbolKind::Class), ..st }
    } else if str_eq(n, "class.def") {
        ExecState { def: Some(c.duplicate()), ..st }
    } else if str_eq(n, "interface.name") {
        ExecState { name: Some(c.text.clone()), kind: Some(SymbolKind::Interface), ..st }
    } else if str_eq(n, "interface.def") {
        ExecState { def: Some(c.duplicate()), ..st }
    } else if str_eq(n, "type.name") {
        ExecState { name: Some(c.text.clone()), kind: Some(SymbolKind::Type), ..st }
    } else if str_eq(n, "type.def") {
        ExecState { def: Some(c.duplicate()), ..st }
    } else if str_eq(n, "const.name") || str_eq(n, "static.name") {
        ExecState { name: Some(c.text.clone()), kind: Some(SymbolKind::Constant), ..st }
    } else if str_eq(n, "const.def") || str_eq(n, "static.def") {
        ExecState { def: Some(c.duplicate()), ..st }
    } else if str_eq(n, "mod.name") {
        ExecState { name: Some(c.text.clone()), kind: Some(SymbolKind::Module), ..st }
    } else if str_eq(n, "mod.def") {
        ExecState { def: Some(c.duplicate()), ..st }
    } else {
        st
    }
}

/// A group's definition node lies in bounds for line numbering.
pub open spec fn state_bounded(st: ExtractState) -> bool {
    match st.def {
        Some(d) => 0 <= d.sr <= d.er < usize::MAX && 0 <= d.sb <= d.eb <= usize::MAX,
        None => true,
    }
}

/// Build the record of a finished group, as `group_symbol` says.
fn flush_exec(st: &ExecState, rel_path: &str, language: crate::file_entry::Language) -> (r: Option<
    Symbol,
>)
    requires
        state_bounded(st@),
    ensures
        match (r, group_symbol(st@, rel_path@, language)) {
            (Some(s), Some(sv)) => s.deep_view() == sv,
            (None, None) => true,
            _ => false,
        },
{
    match (&st.name, st.kind, &st.def) {
        (Some(n), Some(k), Some(d)) => {
            let s = Symbol {
                name: n.clone(),
                kind: k,
                file: String::from_str(rel_path),
                byte_range: (d.sb, d.eb),
                line_range: (d.sr + 1, d.er + 1),
                language,
                signature: first_line(d.text.as_str()),
                definition: None,
                parent: crate::symbol::clone_opt_string(&st.parent),
            };
            Some(s)
        },
        _ => None,
    }
}

/// Interpret a capture stream as symbol records: one record per match
/// group that captured a name, a kind and a definition span, exactly as
/// `spec_extract` states.
pub fn symbols_from_captures(
    caps: &Vec<RawCapture>,
    rel_path: &str,
    language: crate::file_entry::Language,
) -> (r: Vec<Symbol>)
    requires
        forall|k: int|
            0 <= k < caps.deep_view().len() ==> {
                let c = #[trigger] caps.deep_view()[k];
                0 <= c.sb <= c.eb <= usize::MAX && 0 <= c.sr <= c.er < usize::MAX
            },
    ensures
        r.deep_view() == spec_extract(caps.deep_view(), rel_path@, language),
{
    let ghost capsv = caps.deep_view();
    let mut out: Vec<Symbol> = Vec::new();
    if caps.len() == 0 {
        proof {
            assert(out.deep_view() =~= spec_extract(capsv, rel_path@, language));
        }
        return out;
    }
    let mut st = ExecState { cur_impl: None, name: None, kind: None, def: None, parent: None };
    let mut cur_grp: usize = caps[0].grp;
    proof {
        assert(st@ == empty_state());
        assert(capsv[0] == caps@[0].deep_view());
        assert(out.deep_view() =~= Seq::<SymbolView>::empty());
    }
    let mut i: usize = 0;
    while i < caps.len()
        invariant
            capsv == caps.deep_view(),
            capsv.len() == caps@.len(),
            i <= capsv.len(),
            forall|k: int|
                0 <= k < capsv.len() ==> {
                    let c = #[trigger] capsv[k];
                    0 <= c.sb <= c.eb <= usize::MAX && 0 <= c.sr <= c.er < usize::MAX
                },
            state_bounded(st@),
            spec_extract(capsv, rel_path@, language) == out.deep_view() + extract_from(
                capsv,
                i as int,
                st@,
                cur_grp as int,
                rel_path@,
                language,
            ),
        decreases capsv.len() - i,
    {
        let c = &caps[i];
        proof {
            assert(capsv[i as int] == caps@[i as int].deep_view());
        }
        if c.grp != cur_grp {
            let flushed = flush_exec(&st, rel_path, language);
            let ghost pre = out@;
            let ghost pred = out.deep_view();
            match flushed {
                Some(s) => {
                    out.push(s);
                    proof {
                        assert(forall|j: int| 0 <= j < pre.len() ==> out@[j] == pre[j]);
                        assert(forall|j: int|
                            0 <= j < pre.len() ==> #[trigger] out.deep_view()[j] == pred[j]);
                        assert(out.deep_view() =~= pred + flush_seq(st@, rel_path@, language));
                    }
                },
                None => {
                    proof {
                        assert(out.deep_view() =~= pred + flush_seq(st@, rel_path@, language));
                    }
                },
            }
            let st2 = ExecState {
                cur_impl: st.cur_impl,
                name: None,
                kind: None,
                def: None,
                parent: None,
            };
            proof {
                assert(st2@ == group_reset(st@));
            }
            st = apply_cap_exec(st2, c);
            cur_grp = c.grp;
            proof {
                assert(out.deep_view() + extract_from(
                    capsv,
                    (i + 1) as int,
                    st@,
                    cur_grp as int,
                    rel_path@,
                    language,
                ) =~= spec_extract(capsv, rel_path@, language));
            }
        } else {
            st = apply_cap_exec(st, c);
            proof {
                assert(out.deep_view() + extract_from(
                    capsv,
                    (i + 1) as int,
                    st@,
                    cur_grp as int,
                    rel_path@,
                    language,
                ) =~= spec_extract(capsv, rel_path@, language));
            }
        }
        i += 1;
    }
    let flushed = flush_exec(&st, rel_path, language);
    let ghost pre = out@;
    let ghost pred = out.deep_view();
    match flushed {
        Some(s) => {
            out.push(s);
            proof {
                assert(forall|j: int| 0 <= j < pre.len() ==> out@[j] == pre[j]);
                assert(forall|j: int|
                    0 <= j < pre.len() ==> #[trigger] out.deep_view()[j] == pred[j]);
                assert(out.deep_view() =~= pred + flush_seq(st@, rel_path@, language));
                assert(out.deep_view() =~= spec_extract(capsv, rel_path@, language));
            }
        },
        None => {
            proof {
                assert(out.deep_view() =~= pred + flush_seq(st@, rel_path@, language));
                assert(out.deep_view() =~= spec_extract(capsv, rel_path@, language));
            }
        },
    }
    out
}

/// Extract the symbols of one file from its source text. A language
/// without a profile, or a grammar that fails to load, yields no
/// symbols; otherwise the records are exactly the interpretation of the
/// parser's captures for the profile's symbol pattern.
pub fn extract_symbols_from_file(
    rel_path: &str,
    language: crate::file_entry::Language,
    source: &str,
) -> (r: Vec<Symbol>)
    requires
        source.spec_bytes().len() < usize::MAX,
    ensures
        spec_has_profile(language) && grammar_loads(language) ==> r.deep_view() == spec_extract(
            ts_query_caps(
                language,
                crate::queries::spec_symbols_query(language),
                source@,
                0,
                (source.spec_bytes().len() as usize) as int,
            ),
            rel_path@,
            language,
        ),
        !(spec_has_profile(language) && grammar_loads(language)) ==> r@.len() == 0,
{
    let cfg = match get_language_config(language) {
        Some(c) => c,
        None => {
            return Vec::new();
        },
    };
    let tree = match ts_parse(&cfg.language, &language, source) {
        Some(t) => t,
        None => {
            return Vec::new();
        },
    };
    let nbytes = source.len();
    let caps = ts_query_run(&cfg.language, &language, &tree, cfg.symbols_query, source, 0, nbytes);
    let r = symbols_from_captures(&caps, rel_path, language);
    proof {
        assert(r.deep_view() == spec_extract(
            ts_query_caps(language, cfg.symbols_query@, source@, 0, nbytes as int),
            rel_path@,
            language,
        ));
    }
    r
}

/// The records of one source, when its path is indexed and its language
/// both has a profile and loads: the interpretation of the symbol
/// pattern's captures over its text.
pub open spec fn spec_source_syms(
    src: (Seq<char>, Seq<char>),
    treem: Map<Seq<char>, crate::file_entry::FileEntry>,
) -> Seq<SymbolView> {
    if treem.contains_key(src.0) && spec_has_profile(treem[src.0].language) && grammar_loads(
        treem[src.0].language,
    ) {
        spec_extract(
            ts_query_caps(
                treem[src.0].language,
                crate::queries::spec_symbols_query(treem[src.0].language),
                src.1,
                0,
                (vstd::utf8::encode_utf8(src.1).len() as usize) as int,
            ),
            src.0,
            treem[src.0].language,
        )
    } else {
        Seq::empty()
    }
}

/// The key is that of a record extracted from one of the first `n`
/// sources.
pub open spec fn spec_key_from_sources(
    key: Seq<char>,
    sources: Seq<(Seq<char>, Seq<char>)>,
    treem: Map<Seq<char>, crate::file_entry::FileEntry>,
    n: int,
) -> bool {
    exists|k: int, j: int|
        0 <= k < n && 0 <= j < spec_source_syms(sources[k], treem).len() && key
            == crate::symbol_table::spec_key(
            (#[trigger] spec_source_syms(sources[k], treem)[j]).file,
            spec_source_syms(sources[k], treem)[j].name,
        ) && 0 <= k < sources.len()
}

/// The extracted records of the first `n` sources, counted.
pub open spec fn spec_extract_total(
    sources: Seq<(Seq<char>, Seq<char>)>,
    treem: Map<Seq<char>, crate::file_entry::FileEntry>,
    n: int,
) -> int
    decreases n,
{
    if n <= 0 {
        0
    } else {
        spec_extract_total(sources, treem, n - 1) + spec_source_syms(sources[n - 1], treem).len()
    }
}

/// Two records equal but for the extraction flag.
pub open spec fn spec_same_but_flag(
    a: crate::file_entry::FileEntry,
    b: crate::file_entry::FileEntry,
) -> bool {
    a.rel_path@ == b.rel_path@ && a.size == b.size && a.modified == b.modified && a.language
        == b.language && a.definition == b.definition && a.marks@ == b.marks@
}

/// Extract symbols for every file of the tree whose language has a
/// profile, insert them into the table, and mark each such file as
/// extracted. Hands back the number of symbols inserted, clamped at the
/// machine limit. Every record extracted from a present, profiled source
/// lands in the table; no other key appears; records keep their fields
/// but for the extraction flag, which is set on every present, profiled
/// source path.
#[verifier::loop_isolation(false)]
#[verifier::rlimit(60)]
pub fn extract_all_symbols(
    file_tree: &mut FileTree,
    symbol_table: &mut SymbolTable,
    sources: &Vec<(String, String)>,
) -> (count: usize)
    requires
        old(file_tree).wf(),
        old(symbol_table).inv(),
        forall|k: int|
            0 <= k < sources@.len() ==> vstd::utf8::encode_utf8(
                (#[trigger] sources@[k]).1@,
            ).len() < usize::MAX,
    ensures
        final(file_tree).wf(),
        final(symbol_table).inv(),
        forall|p: Seq<char>|
            #[trigger] final(file_tree).files@.contains_key(p) == old(
                file_tree,
            ).files@.contains_key(p),
        forall|p: Seq<char>|
            #[trigger] final(file_tree).files@.contains_key(p) ==> spec_same_but_flag(
                final(file_tree).files@[p],
                old(file_tree).files@[p],
            ),
        forall|k: int|
            0 <= k < sources@.len() && old(file_tree).files@.contains_key(
                (#[trigger] sources.deep_view()[k]).0,
            ) && spec_has_profile(
                old(file_tree).files@[sources.deep_view()[k].0].language,
            ) ==> final(file_tree).files@[sources.deep_view()[k].0].symbols_extracted,
        forall|key: Seq<char>|
            #[trigger] final(symbol_table).symbols@.contains_key(key) <==> (old(
                symbol_table,
            ).symbols@.contains_key(key) || spec_key_from_sources(
                key,
                sources.deep_view(),
                old(file_tree).files@,
                sources@.len() as int,
            )),
        count as int == (if spec_extract_total(
            sources.deep_view(),
            old(file_tree).files@,
            sources@.len() as int,
        ) <= usize::MAX {
            spec_extract_total(
                sources.deep_view(),
                old(file_tree).files@,
                sources@.len() as int,
            )
        } else {
            usize::MAX as int
        }),
{
    let ghost m0 = file_tree.files@;
    let ghost srcs = sources.deep_view();
    let mut count: usize = 0;
    let mut i: usize = 0;
    proof {
        lemma_extract_total_nonneg(srcs, m0, 0);
    }
    while i < sources.len()
        invariant
            file_tree.wf(),
            symbol_table.inv(),
            i <= sources@.len(),
            srcs == sources.deep_view(),
            srcs.len() == sources@.len(),
            forall|p: Seq<char>|
                #[trigger] file_tree.files@.contains_key(p) == m0.contains_key(p),
            forall|p: Seq<char>|
                #[trigger] file_tree.files@.contains_key(p) ==> spec_same_but_flag(
                    file_tree.files@[p],
                    m0[p],
                ),
            forall|k: int|
                0 <= k < i && m0.contains_key((#[trigger] srcs[k]).0) && spec_has_profile(
                    m0[srcs[k].0].language,
                ) ==> file_tree.files@[srcs[k].0].symbols_extracted,
            forall|key: Seq<char>|
                #[trigger] symbol_table.symbols@.contains_key(key) <==> (old(
                    symbol_table,
                ).symbols@.contains_key(key) || spec_key_from_sources(key, srcs, m0, i as int)),
            count as int == (if spec_extract_total(srcs, m0, i as int) <= usize::MAX {
                spec_extract_total(srcs, m0, i as int)
            } else {
                usize::MAX as int
            }),
        decreases sources@.len() - i,
    {
        proof {
            lemma_extract_total_nonneg(srcs, m0, i as int);
            assert(srcs[i as int] == (sources@[i as int].0@, sources@[i as int].1@));
        }
        let rel_path = &sources[i].0;
        let entry = file_tree.get(rel_path.as_str());
        let ghost prevtab = symbol_table.symbols@;
        match entry {
            Some(e) => {
                if e.language.has_tree_sitter_support() {
                    let syms = extract_symbols_from_file(
                        rel_path.as_str(),
                        e.language,
                        sources[i].1.as_str(),
                    );
                    proof {
                        assert(e.language == m0[srcs[i as int].0].language);
                        if grammar_loads(e.language) {
                            assert(syms.deep_view() == spec_source_syms(srcs[i as int], m0));
                        } else {
                            assert(syms@.len() == 0);
                            assert(spec_source_syms(srcs[i as int], m0).len() == 0) by {
                                assert(spec_source_syms(srcs[i as int], m0) == Seq::<
                                    SymbolView,
                                >::empty());
                            }
                        }
                    }
                    let mut j: usize = 0;
                    while j < syms.len()
                        invariant
                            symbol_table.inv(),
                            j <= syms@.len(),
                            syms.deep_view().len() == syms@.len(),
                            syms.deep_view() == spec_source_syms(srcs[i as int], m0),
                            forall|key: Seq<char>|
                                #[trigger] symbol_table.symbols@.contains_key(key) <==> (
                                prevtab.contains_key(key) || exists|jj: int|
                                    0 <= jj < j && key == crate::symbol_table::spec_key(
                                        (#[trigger] syms.deep_view()[jj]).file,
                                        syms.deep_view()[jj].name,
                                    )),
                        decreases syms@.len() - j,
                    {
                        let ghost before = symbol_table.symbols@;
                        let s0 = syms[j].duplicate();
                        proof {
                            assert(syms.deep_view()[j as int] == syms@[j as int].deep_view());
                            assert(s0.file@ == syms.deep_view()[j as int].file);
                            assert(s0.name@ == syms.deep_view()[j as int].name);
                        }
                        symbol_table.insert(s0);
                        proof {
                            assert forall|key: Seq<char>|
                                #[trigger] symbol_table.symbols@.contains_key(key) implies (
                            prevtab.contains_key(key) || exists|jj: int|
                                0 <= jj < j + 1 && key == crate::symbol_table::spec_key(
                                    (#[trigger] syms.deep_view()[jj]).file,
                                    syms.deep_view()[jj].name,
                                )) by {
                                if key != crate::symbol_table::spec_key(
                                    syms.deep_view()[j as int].file,
                                    syms.deep_view()[j as int].name,
                                ) {
                                    assert(before.contains_key(key));
                                    if !prevtab.contains_key(key) {
                                        let jj = choose|jj: int|
                                            0 <= jj < j && key == crate::symbol_table::spec_key(
                                                (#[trigger] syms.deep_view()[jj]).file,
                                                syms.deep_view()[jj].name,
                                            );
                                    }
                                } else {
                                    assert(0 <= j < j + 1 && key == crate::symbol_table::spec_key(
                                        syms.deep_view()[j as int].file,
                                        syms.deep_view()[j as int].name,
                                    ));
                                }
                            }
                            assert forall|key: Seq<char>|
                                (prevtab.contains_key(key) || exists|jj: int|
                                    0 <= jj < j + 1 && key == crate::symbol_table::spec_key(
                                        (#[trigger] syms.deep_view()[jj]).file,
                                        syms.deep_view()[jj].name,
                                    )) implies #[trigger] symbol_table.symbols@.contains_key(
                                key,
                            ) by {}
                        }
                        j += 1;
                    }
                    count = if count > usize::MAX - syms.len() {
                        usize::MAX
                    } else {
                        count + syms.len()
                    };
                    let mut updated = e;
                    updated.symbols_extracted = true;
                    let ghost pm = file_tree.files@;
                    file_tree.insert(updated);
                    proof {
                        assert(updated.rel_path@ == srcs[i as int].0);
                        assert forall|p: Seq<char>|
                            #[trigger] file_tree.files@.contains_key(p) == m0.contains_key(
                            p,
                        ) by {
                            if p != srcs[i as int].0 {
                                assert(file_tree.files@.contains_key(p) == pm.contains_key(p));
                            }
                        }
                        assert forall|p: Seq<char>|
                            #[trigger] file_tree.files@.contains_key(p) implies spec_same_but_flag(
                            file_tree.files@[p],
                            m0[p],
                        ) by {
                            if p != srcs[i as int].0 {
                                assert(file_tree.files@[p] == pm[p]);
                            }
                        }
                    }
                } else {
                    proof {
                        assert(spec_source_syms(srcs[i as int], m0) == Seq::<SymbolView>::empty());
                    }
                }
            },
            None => {
                proof {
                    assert(spec_source_syms(srcs[i as int], m0) == Seq::<SymbolView>::empty());
                }
            },
        }
        proof {
            assert forall|key: Seq<char>|
                #[trigger] symbol_table.symbols@.contains_key(key) <==> (old(
                symbol_table,
            ).symbols@.contains_key(key) || spec_key_from_sources(key, srcs, m0, (i + 1) as int))
                by {
                if symbol_table.symbols@.contains_key(key) && !old(
                    symbol_table,
                ).symbols@.contains_key(key) {
                    if !spec_key_from_sources(key, srcs, m0, i as int) {
                        if prevtab.contains_key(key) {
                            assert(spec_key_from_sources(key, srcs, m0, i as int));
                        }
                    }
                }
                if spec_key_from_sources(key, srcs, m0, (i + 1) as int) {
                    let (k, jx) = choose|k: int, jx: int|
                        0 <= k < i + 1 && 0 <= jx < spec_source_syms(srcs[k], m0).len() && key
                            == crate::symbol_table::spec_key(
                            (#[trigger] spec_source_syms(srcs[k], m0)[jx]).file,
                            spec_source_syms(srcs[k], m0)[jx].name,
                        ) && 0 <= k < srcs.len();
                    if k < i {
                        assert(spec_key_from_sources(key, srcs, m0, i as int));
                    }
                }
            }
        }
        i += 1;
    }
    count
}

proof fn lemma_extract_total_nonneg(
    sources: Seq<(Seq<char>, Seq<char>)>,
    treem: Map<Seq<char>, crate::file_entry::FileEntry>,
    n: int,
)
    ensures
        spec_extract_total(sources, treem, n) >= 0,
    decreases n,
{
    if n > 0 {
        lemma_extract_total_nonneg(sources, treem, n - 1);
    }
}

} // verus!