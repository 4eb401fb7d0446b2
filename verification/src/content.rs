//! Content queries: windowed file reading, scoped regex search, and chunk
//! arithmetic. File contents are handed in; the regex engine stands
//! behind a trusted boundary.
use vstd::prelude::*;
use crate::file_entry::{spec_has_profile, Language};
use crate::file_tree::FileTree;
use crate::parser::{ts_parse, ts_query_caps, ts_query_run, CaptureView};
use crate::queries::get_language_config;
use crate::text::{
    fmt_usize, lower_of, pad_left, spec_contains, spec_dec, spec_lines, spec_pad_left, str_eq,
    str_lines, to_lower,
};
use vstd::string::StrSliceExecFns;
use vstd::string::StringExecFns;
use vstd::string::StringSliceAdditionalSpecFns;

verus! {

// ---------------------------------------------------------------------
// Regex boundary
// ---------------------------------------------------------------------
#[verifier::external_type_specification]
#[verifier::external_body]
pub struct ExRegex(regex::Regex);

/// Whether a pattern compiles.
pub uninterp spec fn regex_ok(pat: Seq<char>) -> bool;

/// The compiled engine for a pattern.
pub uninterp spec fn regex_of(pat: Seq<char>) -> regex::Regex;

/// Byte offsets of the successive non-overlapping matches of a pattern
/// in a text, leftmost first.
pub uninterp spec fn regex_match_starts(pat: Seq<char>, text: Seq<char>) -> Seq<int>;

/// The pattern matches somewhere in the text.
pub open spec fn regex_matches(pat: Seq<char>, text: Seq<char>) -> bool {
    regex_match_starts(pat, text).len() > 0
}

/// Relies on regex::Regex::new: compilation is a function of the pattern;
/// the message describes the fault.
#[verifier::external_body]
pub(crate) fn regex_new(pat: &str) -> (r: Result<regex::Regex, String>)
    ensures
        r is Ok <==> regex_ok(pat@),
        match r {
            Ok(re) => re == regex_of(pat@),
            Err(_) => true,
        },
{
    regex::Regex::new(pat).map_err(|e| e.to_string())
}

/// Relies on regex::Regex::find_iter: the successive non-overlapping
/// leftmost matches, deterministic in pattern and text, their start
/// offsets strictly increasing.
#[verifier::external_body]
pub(crate) fn re_match_starts(re: &regex::Regex, pat: &str, text: &str) -> (r: Vec<usize>)
    requires
        *re == regex_of(pat@),
    ensures
        r@.len() == regex_match_starts(pat@, text@).len(),
        forall|k: int|
            0 <= k < r@.len() ==> (#[trigger] r@[k]) as int == regex_match_starts(pat@, text@)[k],
        forall|k: int|
            0 < k < r@.len() ==> regex_match_starts(pat@, text@)[k - 1] < (
            #[trigger] regex_match_starts(pat@, text@)[k]),
{
    re.find_iter(text).map(|m| m.start()).collect()
}

// ---------------------------------------------------------------------
// Peek
// ---------------------------------------------------------------------
pub struct PeekResponse {
    pub file: String,
    pub start_line: usize,
    pub end_line: usize,
    pub total_lines: usize,
    pub content: String,
}

/// One numbered row of a peek: the right-aligned line number, a bar, and
/// the line itself.
pub open spec fn spec_peek_row(lines: Seq<Seq<char>>, i: int) -> Seq<char> {
    spec_pad_left(spec_dec(i + 1), 6) + seq![' ', '\u{2502}', ' '] + lines[i]
}

/// The numbered rows `[s, e)` joined with newlines, no trailing newline.
pub open spec fn spec_peek_content(lines: Seq<Seq<char>>, s: int, e: int) -> Seq<char>
    decreases e - s,
{
    if s >= e {
        Seq::empty()
    } else if s + 1 == e {
        spec_peek_row(lines, s)
    } else {
        spec_peek_row(lines, s) + seq!['\n'] + spec_peek_content(lines, s + 1, e)
    }
}

proof fn lemma_peek_content_snoc(lines: Seq<Seq<char>>, s: int, e: int)
    requires
        s <= e,
    ensures
        spec_peek_content(lines, s, e + 1) == if s == e {
            spec_peek_row(lines, e)
        } else {
            spec_peek_content(lines, s, e) + seq!['\n'] + spec_peek_row(lines, e)
        },
    decreases e - s,
{
    if s < e {
        lemma_peek_content_snoc(lines, s + 1, e);
        if s + 1 == e {
            assert(spec_peek_content(lines, s, e + 1) =~= spec_peek_content(lines, s, e) + seq![
                '\n',
            ] + spec_peek_row(lines, e));
        } else {
            assert(spec_peek_content(lines, s, e + 1) =~= spec_peek_content(lines, s, e) + seq![
                '\n',
            ] + spec_peek_row(lines, e));
        }
    }
}

/// Read a window of a file's lines with 1-indexed number prefixes. The
/// window is clamped to the line count; the file must be indexed. The
/// source text is supplied by the caller.
#[verifier::rlimit(60)]
pub fn peek(file_tree: &FileTree, file: &str, source: &str, start: usize, end: usize) -> (r: Result<
    PeekResponse,
    String,
>)
    requires
        source@.len() < usize::MAX,
    ensures
        r is Ok <==> file_tree.files@.contains_key(file@),
        match r {
            Ok(p) => {
                let lines = spec_lines(source@);
                let s = if start <= lines.len() {
                    start as int
                } else {
                    lines.len() as int
                };
                let e = if end <= lines.len() {
                    end as int
                } else {
                    lines.len() as int
                };
                &&& p.file@ == file@
                &&& p.total_lines == lines.len()
                &&& p.start_line == s + 1
                &&& p.end_line == e
                &&& p.content@ == spec_peek_content(lines, s, if s <= e {
                    e
                } else {
                    s
                })
            },
            Err(_) => true,
        },
{
    if !file_tree.files.contains_key(file) {
        let mut msg = String::from_str("File '");
        msg.append(file);
        msg.append("' not found in index");
        return Err(msg);
    }
    let lines = str_lines(source);
    let ghost lv = spec_lines(source@);
    let total_lines = lines.len();
    proof {
        crate::text::lemma_lines_len(source@);
    }
    let start_c = if start <= total_lines {
        start
    } else {
        total_lines
    };
    let end_c0 = if end <= total_lines {
        end
    } else {
        total_lines
    };
    let end_c = if start_c <= end_c0 {
        end_c0
    } else {
        start_c
    };
    let mut content = String::new();
    let mut i: usize = start_c;
    while i < end_c
        invariant
            lines.deep_view() == lv,
            lv.len() == lines@.len(),
            start_c <= i <= end_c <= lv.len(),
            content@ == spec_peek_content(lv, start_c as int, i as int),
        decreases end_c - i,
    {
        proof {
            reveal_strlit(" \u{2502} ");
            reveal_strlit("\n");
            assert((" \u{2502} "@) =~= seq![' ', '\u{2502}', ' ']);
            assert(("\n"@) =~= seq!['\n']);
            assert(lines.deep_view()[i as int] == lines@[i as int]@);
        }
        let row = pad_left(fmt_usize(i + 1), 6).concat(" \u{2502} ").concat(
            lines[i].as_str(),
        );
        proof {
            assert(row@ =~= spec_peek_row(lv, i as int));
            lemma_peek_content_snoc(lv, start_c as int, i as int);
        }
        if i > start_c {
            content = content.concat("\n").concat(row.as_str());
        } else {
            content = content.concat(row.as_str());
            proof {
                assert(content@ =~= spec_peek_row(lv, i as int));
            }
        }
        i += 1;
    }
    Ok(
        PeekResponse {
            file: String::from_str(file),
            start_line: start_c + 1,
            end_line: end_c0,
            total_lines,
            content,
        },
    )
}

/// A peek over a symbol's line range shows its signature: whenever the
/// signature occurs in the first line of the window, it occurs in the
/// rendered content.
pub proof fn lemma_peek_covers_signature(lines: Seq<Seq<char>>, sig: Seq<char>, s: int, e: int)
    requires
        0 <= s < e <= lines.len(),
        spec_contains(lines[s], sig),
    ensures
        spec_contains(spec_peek_content(lines, s, e), sig),
{
    let row = spec_peek_row(lines, s);
    let pre = spec_pad_left(spec_dec(s + 1), 6) + seq![' ', '\u{2502}', ' '];
    let k = choose|k: int| crate::text::spec_match_at(lines[s], k, sig);
    assert(row =~= pre + lines[s]);
    assert(row.subrange(pre.len() + k, pre.len() + k + sig.len() as int) =~= lines[s].subrange(
        k,
        k + sig.len() as int,
    ));
    assert(crate::text::spec_match_at(row, pre.len() + k, sig));
    if s + 1 == e {
    } else {
        let rest = seq!['\n'] + spec_peek_content(lines, s + 1, e);
        let whole = spec_peek_content(lines, s, e);
        assert(whole == row + rest);
        let j = choose|j: int| crate::text::spec_match_at(row, j, sig);
        assert(whole.subrange(j, j + sig.len() as int) =~= row.subrange(j, j + sig.len() as int));
        assert(crate::text::spec_match_at(whole, j, sig));
    }
}

// ---------------------------------------------------------------------
// Chunk indices
// ---------------------------------------------------------------------
pub struct ChunkIndicesResponse {
    pub file: String,
    pub total_bytes: usize,
    pub chunk_size: usize,
    pub overlap: usize,
    pub chunks: Vec<ChunkInfo>,
}

#[derive(Clone, Copy, PartialEq, Eq, Debug, Structural)]
pub struct ChunkInfo {
    pub index: usize,
    pub start: usize,
    pub end: usize,
}

/// Windows of at most `size` bytes starting every `size - overlap` bytes:
/// chunk `i` starts at `i * step`, ends at the file end at the latest,
/// the first chunk starts at zero, the last ends at the file end, and
/// consecutive chunks leave no gap.
#[verifier::rlimit(60)]
pub fn chunk_indices(
    file_tree: &FileTree,
    file: &str,
    source: &str,
    size: usize,
    overlap: usize,
) -> (r: Result<ChunkIndicesResponse, String>)
    ensures
        r is Ok <==> (size > 0 && overlap < size && file_tree.files@.contains_key(file@)),
        match r {
            Err(m) => (size == 0 ==> m@ == "Chunk size must be > 0"@) && (size > 0 && overlap
                >= size ==> m@ == "Overlap must be < chunk size"@) && (size > 0 && overlap < size
                ==> m@ == "File '"@ + file@ + "' not found in index"@),
            Ok(resp) => {
                let total = (source.spec_bytes().len() as usize) as int;
                let step = size - overlap;
                &&& resp.file@ == file@
                &&& resp.total_bytes == total
                &&& resp.chunk_size == size
                &&& resp.overlap == overlap
                &&& (total == 0 ==> resp.chunks@.len() == 0)
                &&& forall|k: int|
                    0 <= k < resp.chunks@.len() ==> {
                        let c = #[trigger] resp.chunks@[k];
                        &&& c.index == k
                        &&& c.start == k * step
                        &&& c.start < total
                        &&& c.end == if c.start + size <= total {
                            c.start + size as int
                        } else {
                            total
                        }
                    }
                &&& (total > 0 ==> resp.chunks@.len() > 0 && resp.chunks@.last().end == total
                    && resp.chunks@[0].start == 0)
                &&& forall|k: int|
                    0 < k < resp.chunks@.len() ==> (#[trigger] resp.chunks@[k]).start
                        <= resp.chunks@[k - 1].end
            },
        },
{
    if size == 0 {
        return Err(String::from_str("Chunk size must be > 0"));
    }
    if overlap >= size {
        return Err(String::from_str("Overlap must be < chunk size"));
    }
    if !file_tree.files.contains_key(file) {
        let mut msg = String::from_str("File '");
        msg.append(file);
        msg.append("' not found in index");
        return Err(msg);
    }
    let total_bytes = source.len();
    let step = size - overlap;
    let mut chunks: Vec<ChunkInfo> = Vec::new();
    let mut start: usize = 0;
    let mut index: usize = 0;
    proof {
        assert((0int) * ((size - overlap) as int) == 0) by (nonlinear_arith);
    }
    while start < total_bytes
        invariant
            file_tree.files@.contains_key(file@),
            total_bytes == source.spec_bytes().len() as usize,
            size > 0,
            overlap < size,
            step == size - overlap,
            0 < step <= size,
            index == chunks@.len(),
            start == index * step,
            start < total_bytes || chunks@.len() == 0,
            forall|k: int|
                0 <= k < chunks@.len() ==> {
                    let c = #[trigger] chunks@[k];
                    &&& c.index == k
                    &&& c.start == k * (size - overlap)
                    &&& c.start < total_bytes
                    &&& c.end == if c.start + size <= total_bytes {
                        c.start + size as int
                    } else {
                        total_bytes as int
                    }
                },
            forall|k: int|
                0 < k < chunks@.len() ==> (#[trigger] chunks@[k]).start <= chunks@[k - 1].end,
            chunks@.len() > 0 ==> chunks@[0].start == 0,
        decreases total_bytes - start,
    {
        let end = if total_bytes - start < size {
            total_bytes
        } else {
            start + size
        };
        let ghost pre = chunks@;
        chunks.push(ChunkInfo { index, start, end });
        proof {
            assert(forall|k: int| 0 <= k < pre.len() ==> chunks@[k] == pre[k]);
            assert(chunks@[pre.len() as int] == ChunkInfo { index, start, end });
            assert forall|k: int|
                0 < k < chunks@.len() implies (#[trigger] chunks@[k]).start <= chunks@[k
                - 1].end by {
                if k == pre.len() as int && k > 0 {
                    assert(chunks@[k - 1].start == (k - 1) * (size - overlap));
                    assert(k * (size - overlap) == (k - 1) * (size - overlap) + (size - overlap))
                        by (nonlinear_arith);
                    assert(chunks@[k].start == chunks@[k - 1].start + step);
                }
            }
        }
        if end >= total_bytes {
            proof {
                assert(index <= index * step) by (nonlinear_arith)
                    requires
                        step >= 1,
                        index >= 0,
                ;
            }
            index += 1;
            proof {
                assert(chunks@.last().end == total_bytes);
                assert(chunks@[0].start == 0 * (size - overlap));
                assert(0 * (size - overlap) == 0) by (nonlinear_arith);
            }
            return Ok(
                ChunkIndicesResponse {
                    file: String::from_str(file),
                    total_bytes,
                    chunk_size: size,
                    overlap,
                    chunks,
                },
            );
        }
        proof {
            assert((index + 1) * step == index * step + step) by (nonlinear_arith);
            assert(end == start + size);
            assert(start + step <= start + size);
            assert(index <= index * step) by (nonlinear_arith)
                requires
                    step >= 1,
                    index >= 0,
            ;
        }
        index += 1;
        start += step;
    }
    proof {
        assert(chunks@.len() == 0);
        assert(total_bytes == 0);
    }
    Ok(
        ChunkIndicesResponse {
            file: String::from_str(file),
            total_bytes,
            chunk_size: size,
            overlap,
            chunks,
        },
    )
}

// ---------------------------------------------------------------------
// Grep
// ---------------------------------------------------------------------
pub struct GrepResponse {
    pub pattern: String,
    pub matches: Vec<GrepMatch>,
    pub total_matches: usize,
    pub truncated: bool,
}

pub struct GrepMatch {
    pub file: String,
    pub line: usize,
    pub text: String,
    pub context_before: Vec<String>,
    pub context_after: Vec<String>,
}

/// Scope filter for grep: restrict matches to code only (skip comments
/// and strings).
#[derive(Clone, Copy, PartialEq, Eq, Debug, Structural)]
pub enum GrepScope {
    /// Match anywhere (default behaviour).
    All,
    /// Only match in code: skip matches inside comment and string nodes.
    Code,
}

impl GrepScope {
    /// Parse a scope name, case-insensitively.
    pub fn from_str(s: &str) -> (r: Option<Self>)
        ensures
            r == (if lower_of(s@) == "all"@ {
                Some(GrepScope::All)
            } else if lower_of(s@) == "code"@ {
                Some(GrepScope::Code)
            } else {
                None::<GrepScope>
            }),
    {
        let low = to_lower(s);
        let l = low.as_str();
        if str_eq(l, "all") {
            Some(GrepScope::All)
        } else if str_eq(l, "code") {
            Some(GrepScope::Code)
        } else {
            None
        }
    }
}

/// One file offered to grep: path, language and contents.
pub struct GrepSource {
    pub path: String,
    pub language: Language,
    pub text: String,
}

pub struct GrepSourceView {
    pub path: Seq<char>,
    pub language: Language,
    pub text: Seq<char>,
}

impl DeepView for GrepSource {
    type V = GrepSourceView;

    open spec fn deep_view(&self) -> GrepSourceView {
        GrepSourceView { path: self.path@, language: self.language, text: self.text@ }
    }
}

pub const RUST_SKIP_QUERY: &'static str = "\n(line_comment) @skip\n(block_comment) @skip\n(string_literal) @skip\n(raw_string_literal) @skip\n";

pub const PYTHON_SKIP_QUERY: &'static str = "\n(comment) @skip\n(string) @skip\n";

pub const TS_SKIP_QUERY: &'static str = "\n(comment) @skip\n(string) @skip\n(template_string) @skip\n";

pub const GO_SKIP_QUERY: &'static str = "\n(comment) @skip\n(raw_string_literal) @skip\n(interpreted_string_literal) @skip\n";

/// The comment-and-string query source of a language.
pub open spec fn spec_skip_query(lang: Language) -> Seq<char> {
    if lang == Language::Rust {
        RUST_SKIP_QUERY@
    } else if lang == Language::Python {
        PYTHON_SKIP_QUERY@
    } else if lang == Language::TypeScript || lang == Language::JavaScript {
        TS_SKIP_QUERY@
    } else if lang == Language::Go {
        GO_SKIP_QUERY@
    } else {
        Seq::empty()
    }
}

fn skip_query_src(language: Language) -> (r: &'static str)
    ensures
        r@ == spec_skip_query(language),
{
    proof {
        reveal_strlit("");
        assert((""@) =~= Seq::<char>::empty());
    }
    match language {
        Language::Rust => RUST_SKIP_QUERY,
        Language::Python => PYTHON_SKIP_QUERY,
        Language::TypeScript | Language::JavaScript => TS_SKIP_QUERY,
        Language::Go => GO_SKIP_QUERY,
        _ => "",
    }
}

/// The byte length of a character sequence once encoded.
pub open spec fn spec_line_bytes(l: Seq<char>) -> int {
    (vstd::utf8::encode_utf8(l).len() as usize) as int
}

/// Addition clamped at the machine limit.
pub open spec fn sat_add(a: int, b: int) -> int {
    if a + b > usize::MAX {
        usize::MAX as int
    } else {
        a + b
    }
}

/// Byte offset of the start of line `i`, clamped at the machine limit.
pub open spec fn spec_line_off(lines: Seq<Seq<char>>, i: int) -> int
    decreases i,
{
    if i <= 0 {
        0
    } else {
        sat_add(spec_line_off(lines, i - 1), sat_add(spec_line_bytes(lines[i - 1]), 1))
    }
}

/// The comment-and-string captures of a file.
pub open spec fn spec_noncode_caps(lang: Language, text: Seq<char>) -> Seq<CaptureView> {
    ts_query_caps(
        lang,
        spec_skip_query(lang),
        text,
        0,
        (vstd::utf8::encode_utf8(text).len() as usize) as int,
    )
}

/// Some capture covers a nonempty byte range.
pub open spec fn spec_ranges_exist(lang: Language, text: Seq<char>) -> bool {
    exists|k: int|
        0 <= k < spec_noncode_caps(lang, text).len() && (#[trigger] spec_noncode_caps(
            lang,
            text,
        )[k]).sb < spec_noncode_caps(lang, text)[k].eb
}

/// Byte offset `x` lies inside some comment or string node.
pub open spec fn spec_covered(lang: Language, text: Seq<char>, x: int) -> bool {
    exists|k: int|
        0 <= k < spec_noncode_caps(lang, text).len() && (#[trigger] spec_noncode_caps(
            lang,
            text,
        )[k]).sb <= x < spec_noncode_caps(lang, text)[k].eb
}

/// The nonempty comment-and-string captures among the first `n`.
pub open spec fn spec_noncode_ranges_upto(lang: Language, text: Seq<char>, n: int) -> Seq<
    CaptureView,
> {
    spec_noncode_caps(lang, text).take(n).filter(|c: CaptureView| c.sb < c.eb)
}

/// The nonempty comment-and-string captures, in capture order.
pub open spec fn spec_noncode_ranges(lang: Language, text: Seq<char>) -> Seq<CaptureView> {
    spec_noncode_ranges_upto(lang, text, spec_noncode_caps(lang, text).len() as int)
}

proof fn lemma_ranges_snoc(lang: Language, text: Seq<char>, n: int)
    requires
        0 <= n < spec_noncode_caps(lang, text).len(),
    ensures
        spec_noncode_ranges_upto(lang, text, n + 1) == if spec_noncode_caps(lang, text)[n].sb
            < spec_noncode_caps(lang, text)[n].eb {
            spec_noncode_ranges_upto(lang, text, n).push(spec_noncode_caps(lang, text)[n])
        } else {
            spec_noncode_ranges_upto(lang, text, n)
        },
{
    reveal(Seq::filter);
    let caps = spec_noncode_caps(lang, text);
    let f = |c: CaptureView| c.sb < c.eb;
    assert(caps.take(n + 1) =~= caps.take(n).push(caps[n]));
    assert(caps.take(n).push(caps[n]).drop_last() =~= caps.take(n));
    if f(caps[n]) {
        assert(spec_noncode_ranges_upto(lang, text, n + 1) =~= spec_noncode_ranges_upto(
            lang,
            text,
            n,
        ).push(caps[n]));
    } else {
        assert(spec_noncode_ranges_upto(lang, text, n + 1) =~= spec_noncode_ranges_upto(
            lang,
            text,
            n,
        ));
    }
}

proof fn lemma_ranges_elem(lang: Language, text: Seq<char>, n: int, j: int)
    requires
        0 <= n <= spec_noncode_caps(lang, text).len(),
        0 <= j < spec_noncode_ranges_upto(lang, text, n).len(),
    ensures
        ({
            let c = spec_noncode_ranges_upto(lang, text, n)[j];
            c.sb < c.eb && exists|k: int|
                0 <= k < spec_noncode_caps(lang, text).len() && (#[trigger] spec_noncode_caps(
                    lang,
                    text,
                )[k]) == c
        }),
    decreases n,
{
    if n > 0 {
        lemma_ranges_snoc(lang, text, n - 1);
        let prev = spec_noncode_ranges_upto(lang, text, n - 1);
        if j < prev.len() {
            lemma_ranges_elem(lang, text, n - 1, j);
        } else {
            assert(spec_noncode_caps(lang, text)[n - 1] == spec_noncode_ranges_upto(
                lang,
                text,
                n,
            )[j]);
        }
    } else {
        assert(spec_noncode_ranges_upto(lang, text, 0) =~= Seq::<CaptureView>::empty());
    }
}

proof fn lemma_ranges_complete(lang: Language, text: Seq<char>, n: int, k: int)
    requires
        0 <= k < n <= spec_noncode_caps(lang, text).len(),
        spec_noncode_caps(lang, text)[k].sb < spec_noncode_caps(lang, text)[k].eb,
    ensures
        spec_noncode_ranges_upto(lang, text, n).contains(spec_noncode_caps(lang, text)[k]),
    decreases n,
{
    lemma_ranges_snoc(lang, text, n - 1);
    let cur = spec_noncode_ranges_upto(lang, text, n);
    if k == n - 1 {
        assert(cur[cur.len() - 1] == spec_noncode_caps(lang, text)[k]);
    } else {
        lemma_ranges_complete(lang, text, n - 1, k);
        let prev = spec_noncode_ranges_upto(lang, text, n - 1);
        let j = choose|j: int|
            0 <= j < prev.len() && prev[j] == spec_noncode_caps(lang, text)[k];
        assert(cur[j] == spec_noncode_caps(lang, text)[k]);
    }
}

/// The occurrences of a line whose byte offsets fall outside every
/// comment or string node, among the first `n`.
pub open spec fn spec_kept_starts(fv: GrepSourceView, pat: Seq<char>, l: int, n: int) -> Seq<int> {
    let lines = spec_lines(fv.text);
    regex_match_starts(pat, lines[l]).take(n).filter(
        |x: int| !spec_covered(fv.language, fv.text, sat_add(spec_line_off(lines, l), x)),
    )
}

proof fn lemma_kept_starts_snoc(fv: GrepSourceView, pat: Seq<char>, l: int, n: int)
    requires
        0 <= n < regex_match_starts(pat, spec_lines(fv.text)[l]).len(),
    ensures
        ({
            let lines = spec_lines(fv.text);
            let starts = regex_match_starts(pat, lines[l]);
            spec_kept_starts(fv, pat, l, n + 1) == if !spec_covered(
                fv.language,
                fv.text,
                sat_add(spec_line_off(lines, l), starts[n]),
            ) {
                spec_kept_starts(fv, pat, l, n).push(starts[n])
            } else {
                spec_kept_starts(fv, pat, l, n)
            }
        }),
{
    reveal(Seq::filter);
    let lines = spec_lines(fv.text);
    let starts = regex_match_starts(pat, lines[l]);
    let f = |x: int| !spec_covered(fv.language, fv.text, sat_add(spec_line_off(lines, l), x));
    assert(starts.take(n + 1) =~= starts.take(n).push(starts[n]));
    assert(starts.take(n).push(starts[n]).drop_last() =~= starts.take(n));
    if f(starts[n]) {
        assert(spec_kept_starts(fv, pat, l, n + 1) =~= spec_kept_starts(fv, pat, l, n).push(
            starts[n],
        ));
    } else {
        assert(spec_kept_starts(fv, pat, l, n + 1) =~= spec_kept_starts(fv, pat, l, n));
    }
}

proof fn lemma_kept_starts_le(fv: GrepSourceView, pat: Seq<char>, l: int, n: int)
    requires
        0 <= n <= regex_match_starts(pat, spec_lines(fv.text)[l]).len(),
    ensures
        0 <= spec_kept_starts(fv, pat, l, n).len() <= n,
    decreases n,
{
    if n > 0 {
        lemma_kept_starts_snoc(fv, pat, l, n - 1);
        lemma_kept_starts_le(fv, pat, l, n - 1);
    } else {
        assert(spec_kept_starts(fv, pat, l, 0) =~= Seq::<int>::empty());
    }
}

/// How many matches a line contributes under a scope: all its pattern
/// occurrences, or — in the code scope with comment or string nodes
/// present — only those whose byte offset lies outside every such node.
pub open spec fn spec_line_count(
    fv: GrepSourceView,
    pat: Seq<char>,
    scope: GrepScope,
    l: int,
) -> int {
    let lines = spec_lines(fv.text);
    let starts = regex_match_starts(pat, lines[l]);
    if scope == GrepScope::Code && spec_has_profile(fv.language) && crate::parser::grammar_loads(
        fv.language,
    ) && spec_ranges_exist(fv.language, fv.text) {
        spec_kept_starts(fv, pat, l, starts.len() as int).len() as int
    } else {
        starts.len() as int
    }
}

/// The matching (file index, line index) pairs among the first `n` lines
/// of one file, in line order.
pub open spec fn spec_file_hits_upto(
    files: Seq<GrepSourceView>,
    pat: Seq<char>,
    scope: GrepScope,
    fi: int,
    n: nat,
) -> Seq<(int, int)> {
    Seq::new(n, |l: int| (fi, l)).filter(
        |pr: (int, int)| spec_line_count(files[fi], pat, scope, pr.1) > 0,
    )
}

/// The matching (file index, line index) pairs of one file.
pub open spec fn spec_file_hits(
    files: Seq<GrepSourceView>,
    pat: Seq<char>,
    scope: GrepScope,
    fi: int,
) -> Seq<(int, int)> {
    spec_file_hits_upto(files, pat, scope, fi, spec_lines(files[fi].text).len())
}

proof fn lemma_file_hits_snoc(
    files: Seq<GrepSourceView>,
    pat: Seq<char>,
    scope: GrepScope,
    fi: int,
    n: nat,
)
    ensures
        spec_file_hits_upto(files, pat, scope, fi, n + 1) == if spec_line_count(
            files[fi],
            pat,
            scope,
            n as int,
        ) > 0 {
            spec_file_hits_upto(files, pat, scope, fi, n).push((fi, n as int))
        } else {
            spec_file_hits_upto(files, pat, scope, fi, n)
        },
{
    reveal(Seq::filter);
    let f = |pr: (int, int)| spec_line_count(files[fi], pat, scope, pr.1) > 0;
    assert(Seq::new(n + 1, |l: int| (fi, l)) =~= Seq::new(n, |l: int| (fi, l)).push(
        (fi, n as int),
    ));
    assert(Seq::new(n, |l: int| (fi, l)).push((fi, n as int)).drop_last() =~= Seq::new(
        n,
        |l: int| (fi, l),
    ));
    if f((fi, n as int)) {
        assert(spec_file_hits_upto(files, pat, scope, fi, n + 1) =~= spec_file_hits_upto(
            files,
            pat,
            scope,
            fi,
            n,
        ).push((fi, n as int)));
    } else {
        assert(spec_file_hits_upto(files, pat, scope, fi, n + 1) =~= spec_file_hits_upto(
            files,
            pat,
            scope,
            fi,
            n,
        ));
    }
}

proof fn lemma_file_hits_elem(
    files: Seq<GrepSourceView>,
    pat: Seq<char>,
    scope: GrepScope,
    fi: int,
    n: nat,
    j: int,
)
    requires
        0 <= j < spec_file_hits_upto(files, pat, scope, fi, n).len(),
    ensures
        ({
            let h = spec_file_hits_upto(files, pat, scope, fi, n)[j];
            h.0 == fi && 0 <= h.1 < n && spec_line_count(files[fi], pat, scope, h.1) > 0
        }),
    decreases n,
{
    if n > 0 {
        lemma_file_hits_snoc(files, pat, scope, fi, (n - 1) as nat);
        let prev = spec_file_hits_upto(files, pat, scope, fi, (n - 1) as nat);
        if j < prev.len() {
            lemma_file_hits_elem(files, pat, scope, fi, (n - 1) as nat, j);
        }
    } else {
        assert(spec_file_hits_upto(files, pat, scope, fi, 0) =~= Seq::<(int, int)>::empty());
    }
}

proof fn lemma_file_hits_complete(
    files: Seq<GrepSourceView>,
    pat: Seq<char>,
    scope: GrepScope,
    fi: int,
    n: nat,
    l: int,
)
    requires
        0 <= l < n,
        spec_line_count(files[fi], pat, scope, l) > 0,
    ensures
        spec_file_hits_upto(files, pat, scope, fi, n).contains((fi, l)),
    decreases n,
{
    lemma_file_hits_snoc(files, pat, scope, fi, (n - 1) as nat);
    let prev = spec_file_hits_upto(files, pat, scope, fi, (n - 1) as nat);
    let cur = spec_file_hits_upto(files, pat, scope, fi, n);
    if l == n - 1 {
        assert(cur[cur.len() - 1] == (fi, l));
    } else {
        lemma_file_hits_complete(files, pat, scope, fi, (n - 1) as nat, l);
        let j = choose|j: int| 0 <= j < prev.len() && prev[j] == (fi, l);
        assert(cur[j] == (fi, l));
    }
}

/// All matching pairs of the first `n` files, in file order.
pub open spec fn spec_hits_upto(
    files: Seq<GrepSourceView>,
    pat: Seq<char>,
    scope: GrepScope,
    n: int,
) -> Seq<(int, int)>
    decreases n,
{
    if n <= 0 {
        Seq::empty()
    } else {
        spec_hits_upto(files, pat, scope, n - 1) + spec_file_hits(files, pat, scope, n - 1)
    }
}

/// Every line of every offered file that contributes a match under the
/// scope, in file then line order.
pub open spec fn spec_hits_all(files: Seq<GrepSourceView>, pat: Seq<char>, scope: GrepScope) -> Seq<
    (int, int),
> {
    spec_hits_upto(files, pat, scope, files.len() as int)
}

/// The occurrences of the first `n` lines of one file, summed.
pub open spec fn spec_file_sum_upto(
    fv: GrepSourceView,
    pat: Seq<char>,
    scope: GrepScope,
    n: int,
) -> int
    decreases n,
{
    if n <= 0 {
        0
    } else {
        spec_file_sum_upto(fv, pat, scope, n - 1) + spec_line_count(fv, pat, scope, n - 1)
    }
}

/// The occurrences of the first `n` files, summed.
pub open spec fn spec_sum_upto(
    files: Seq<GrepSourceView>,
    pat: Seq<char>,
    scope: GrepScope,
    n: int,
) -> int
    decreases n,
{
    if n <= 0 {
        0
    } else {
        spec_sum_upto(files, pat, scope, n - 1) + spec_file_sum_upto(
            files[n - 1],
            pat,
            scope,
            spec_lines(files[n - 1].text).len() as int,
        )
    }
}

/// The total occurrence count of a search, before clamping.
pub open spec fn spec_total(files: Seq<GrepSourceView>, pat: Seq<char>, scope: GrepScope) -> int {
    spec_sum_upto(files, pat, scope, files.len() as int)
}

proof fn lemma_line_count_nonneg(fv: GrepSourceView, pat: Seq<char>, scope: GrepScope, l: int)
    ensures
        spec_line_count(fv, pat, scope, l) >= 0,
{
}

proof fn lemma_file_sum_nonneg(fv: GrepSourceView, pat: Seq<char>, scope: GrepScope, n: int)
    ensures
        spec_file_sum_upto(fv, pat, scope, n) >= 0,
    decreases n,
{
    if n > 0 {
        lemma_file_sum_nonneg(fv, pat, scope, n - 1);
    }
}

proof fn lemma_sum_nonneg(files: Seq<GrepSourceView>, pat: Seq<char>, scope: GrepScope, n: int)
    ensures
        spec_sum_upto(files, pat, scope, n) >= 0,
    decreases n,
{
    if n > 0 {
        lemma_sum_nonneg(files, pat, scope, n - 1);
        lemma_file_sum_nonneg(
            files[n - 1],
            pat,
            scope,
            spec_lines(files[n - 1].text).len() as int,
        );
    }
}

/// A line never contributes more matches under the code scope than under
/// the unrestricted scope.
pub proof fn lemma_line_count_code_le(fv: GrepSourceView, pat: Seq<char>, l: int)
    ensures
        spec_line_count(fv, pat, GrepScope::Code, l) <= spec_line_count(fv, pat, GrepScope::All, l),
{
    let lines = spec_lines(fv.text);
    let starts = regex_match_starts(pat, lines[l]);
    lemma_kept_starts_le(fv, pat, l, starts.len() as int);
}

proof fn lemma_file_sum_code_le(fv: GrepSourceView, pat: Seq<char>, n: int)
    ensures
        spec_file_sum_upto(fv, pat, GrepScope::Code, n) <= spec_file_sum_upto(
            fv,
            pat,
            GrepScope::All,
            n,
        ),
    decreases n,
{
    if n > 0 {
        lemma_file_sum_code_le(fv, pat, n - 1);
        lemma_line_count_code_le(fv, pat, n - 1);
    }
}

/// The code scope returns a subset of the unrestricted scope: its total
/// never exceeds the unrestricted total, and every line it reports is a
/// line the unrestricted scope reports.
pub proof fn lemma_code_subset_of_all(files: Seq<GrepSourceView>, pat: Seq<char>)
    ensures
        spec_total(files, pat, GrepScope::Code) <= spec_total(files, pat, GrepScope::All),
        forall|h: (int, int)|
            spec_hits_all(files, pat, GrepScope::Code).contains(h) ==> #[trigger] spec_hits_all(
                files,
                pat,
                GrepScope::All,
            ).contains(h),
{
    lemma_sum_code_le(files, pat, files.len() as int);
    lemma_hits_subset(files, pat, files.len() as int);
}

proof fn lemma_sum_code_le(files: Seq<GrepSourceView>, pat: Seq<char>, n: int)
    ensures
        spec_sum_upto(files, pat, GrepScope::Code, n) <= spec_sum_upto(
            files,
            pat,
            GrepScope::All,
            n,
        ),
    decreases n,
{
    if n > 0 {
        lemma_sum_code_le(files, pat, n - 1);
        lemma_file_sum_code_le(
            files[n - 1],
            pat,
            spec_lines(files[n - 1].text).len() as int,
        );
    }
}

proof fn lemma_hits_subset(files: Seq<GrepSourceView>, pat: Seq<char>, n: int)
    ensures
        forall|h: (int, int)|
            spec_hits_upto(files, pat, GrepScope::Code, n).contains(h) ==> #[trigger] spec_hits_upto(
                files,
                pat,
                GrepScope::All,
                n,
            ).contains(h),
    decreases n,
{
    broadcast use vstd::seq_lib::group_filter_ensures;

    if n > 0 {
        lemma_hits_subset(files, pat, n - 1);
        assert forall|h: (int, int)|
            spec_hits_upto(files, pat, GrepScope::Code, n).contains(h) implies #[trigger] spec_hits_upto(
            files,
            pat,
            GrepScope::All,
            n,
        ).contains(h) by {
            let code_n = spec_hits_upto(files, pat, GrepScope::Code, n);
            let j = choose|j: int| 0 <= j < code_n.len() && code_n[j] == h;
            let prev = spec_hits_upto(files, pat, GrepScope::Code, n - 1);
            let filehits = spec_file_hits(files, pat, GrepScope::Code, n - 1);
            if j < prev.len() {
                assert(code_n == prev + filehits);
                assert(code_n[j] == prev[j]);
                assert(prev.contains(h));
                let all_prev = spec_hits_upto(files, pat, GrepScope::All, n - 1);
                assert(all_prev.contains(h));
                let jj = choose|jj: int| 0 <= jj < all_prev.len() && all_prev[jj] == h;
                assert(spec_hits_upto(files, pat, GrepScope::All, n)[jj] == h);
                assert(spec_hits_upto(files, pat, GrepScope::All, n).contains(h));
            } else {
                assert(filehits[j - prev.len()] == h);
                let lines_n = spec_lines(files[n - 1].text).len();
                lemma_file_hits_elem(
                    files,
                    pat,
                    GrepScope::Code,
                    n - 1,
                    lines_n,
                    j - prev.len(),
                );
                lemma_line_count_code_le(files[n - 1], pat, h.1);
                lemma_file_hits_complete(files, pat, GrepScope::All, n - 1, lines_n, h.1);
                let allfile = spec_file_hits(files, pat, GrepScope::All, n - 1);
                assert(allfile.contains(h));
                let mm = choose|mm: int| 0 <= mm < allfile.len() && allfile[mm] == h;
                let all_prev = spec_hits_upto(files, pat, GrepScope::All, n - 1);
                assert(spec_hits_upto(files, pat, GrepScope::All, n)[all_prev.len() + mm] == h);
                assert(spec_hits_upto(files, pat, GrepScope::All, n).contains(h));
            }
        }
    }
}

/// A reported match agrees with the hit `(fi, l)`: right file, 1-indexed
/// line, the matching line's text, and the surrounding context lines.
pub open spec fn spec_match_fields(
    m: GrepMatch,
    files: Seq<GrepSourceView>,
    pat: Seq<char>,
    scope: GrepScope,
    fi: int,
    l: int,
    context_lines: int,
) -> bool {
    let lines = spec_lines(files[fi].text);
    let cs = if l >= context_lines {
        l - context_lines
    } else {
        0
    };
    let ce = if l + 1 + context_lines <= lines.len() {
        l + 1 + context_lines
    } else {
        lines.len() as int
    };
    &&& 0 <= fi < files.len()
    &&& 0 <= l < lines.len()
    &&& m.file@ == files[fi].path
    &&& m.line == l + 1
    &&& m.text@ == lines[l]
    &&& m.context_before.deep_view() == lines.subrange(cs, l)
    &&& m.context_after.deep_view() == lines.subrange(l + 1, ce)
    &&& spec_line_count(files[fi], pat, scope, l) > 0
}

/// Copies of the lines `[a, b)`.
fn clone_lines_range(lines: &Vec<String>, a: usize, b: usize) -> (r: Vec<String>)
    requires
        a <= b <= lines@.len(),
    ensures
        r.deep_view() == lines.deep_view().subrange(a as int, b as int),
{
    let mut r: Vec<String> = Vec::new();
    let mut i: usize = a;
    while i < b
        invariant
            a <= i <= b <= lines@.len(),
            r@.len() == i - a,
            forall|j: int| 0 <= j < i - a ==> r.deep_view()[j] == lines.deep_view()[a + j],
        decreases b - i,
    {
        let ghost pre = r@;
        let ghost pred = r.deep_view();
        r.push(lines[i].clone());
        proof {
            assert(forall|j: int| 0 <= j < pre.len() ==> r@[j] == pre[j]);
            assert(forall|j: int| 0 <= j < pre.len() ==> #[trigger] r.deep_view()[j] == pred[j]);
            assert(r.deep_view()[pre.len() as int] == lines@[i as int]@);
            assert(lines.deep_view()[i as int] == lines@[i as int]@);
        }
        i += 1;
    }
    proof {
        assert(r.deep_view() =~= lines.deep_view().subrange(a as int, b as int));
    }
    r
}

/// Byte ranges of the nonempty comment and string nodes, as the query
/// engine reports them, in capture order; empty when the language has no
/// profile or the grammar does not load.
#[verifier::loop_isolation(false)]
pub fn compute_non_code_ranges(source: &str, language: Language) -> (r: Vec<(usize, usize)>)
    ensures
        forall|i: int| 0 <= i < r@.len() ==> (#[trigger] r@[i]).0 < r@[i].1,
        spec_has_profile(language) && crate::parser::grammar_loads(language) ==> ({
            let picked = spec_noncode_ranges(language, source@);
            r@.len() == picked.len() && forall|k: int|
                0 <= k < r@.len() ==> (#[trigger] r@[k]).0 == picked[k].sb && r@[k].1
                    == picked[k].eb
        }),
        !(spec_has_profile(language) && crate::parser::grammar_loads(language)) ==> r@.len() == 0,
{
    let mut out: Vec<(usize, usize)> = Vec::new();
    let cfg = match get_language_config(language) {
        Some(c) => c,
        None => {
            return out;
        },
    };
    let tree = match ts_parse(&cfg.language, &language, source) {
        Some(t) => t,
        None => {
            return out;
        },
    };
    let qsrc = skip_query_src(language);
    let caps = ts_query_run(&cfg.language, &language, &tree, qsrc, source, 0, source.len());
    let ghost capsv = caps.deep_view();
    proof {
        assert(capsv == spec_noncode_caps(language, source@));
        assert(spec_noncode_ranges_upto(language, source@, 0) =~= Seq::<CaptureView>::empty());
    }
    let mut i: usize = 0;
    while i < caps.len()
        invariant
            i <= capsv.len(),
            out@.len() == spec_noncode_ranges_upto(language, source@, i as int).len(),
            forall|k: int|
                0 <= k < out@.len() ==> (#[trigger] out@[k]).0 == spec_noncode_ranges_upto(
                    language,
                    source@,
                    i as int,
                )[k].sb && out@[k].1 == spec_noncode_ranges_upto(language, source@, i as int)[k].eb,
            forall|k: int| 0 <= k < out@.len() ==> (#[trigger] out@[k]).0 < out@[k].1,
        decreases capsv.len() - i,
    {
        proof {
            lemma_ranges_snoc(language, source@, i as int);
            assert(capsv[i as int] == caps@[i as int].deep_view());
        }
        if caps[i].sb < caps[i].eb {
            let ghost pre = out@;
            out.push((caps[i].sb, caps[i].eb));
            proof {
                assert(forall|k: int| 0 <= k < pre.len() ==> out@[k] == pre[k]);
            }
        }
        i += 1;
    }
    out
}

/// Whether a byte offset falls inside any of the given ranges.
pub fn is_in_excluded_range(byte_offset: usize, ranges: &Vec<(usize, usize)>) -> (r: bool)
    ensures
        r == exists|i: int|
            0 <= i < ranges@.len() && (#[trigger] ranges@[i]).0 <= byte_offset < ranges@[i].1,
{
    let mut i: usize = 0;
    while i < ranges.len()
        invariant
            i <= ranges@.len(),
            forall|j: int|
                0 <= j < i ==> !((#[trigger] ranges@[j]).0 <= byte_offset < ranges@[j].1),
        decreases ranges@.len() - i,
    {
        if ranges[i].0 <= byte_offset && byte_offset < ranges[i].1 {
            return true;
        }
        i += 1;
    }
    false
}

/// Search the offered files line by line, in the order given, counting
/// every occurrence. The call fails exactly when the pattern does not
/// compile, with a message naming the fault. For either scope the
/// matches are exactly the first `max_matches` matching lines in file
/// order, and the total counts every occurrence the scope admits,
/// clamped at the machine limit; under the code scope an occurrence
/// counts only when its byte offset lies outside every comment or string
/// node.
#[verifier::rlimit(100)]
#[verifier::loop_isolation(false)]
pub fn grep_with_scope(
    sources: &Vec<GrepSource>,
    pattern: &str,
    max_matches: usize,
    context_lines: usize,
    scope: GrepScope,
) -> (r: Result<GrepResponse, String>)
    ensures
        r is Ok <==> regex_ok(pattern@),
        match r {
            Ok(resp) => {
                let files = sources.deep_view();
                let hits = spec_hits_all(files, pattern@, scope);
                let total = spec_total(files, pattern@, scope);
                &&& resp.pattern@ == pattern@
                &&& resp.total_matches == (if total <= usize::MAX {
                    total
                } else {
                    usize::MAX as int
                })
                &&& resp.truncated == (resp.total_matches > max_matches)
                &&& resp.matches@.len() == (if hits.len() <= max_matches {
                    hits.len() as int
                } else {
                    max_matches as int
                })
                &&& forall|k: int|
                    0 <= k < resp.matches@.len() ==> spec_match_fields(
                        #[trigger] resp.matches@[k],
                        files,
                        pattern@,
                        scope,
                        hits[k].0,
                        hits[k].1,
                        context_lines as int,
                    )
            },
            Err(m) => crate::text::spec_starts_with(m@, "Invalid regex: "@),
        },
{
    let ghost files = sources.deep_view();
    let ghost pat = pattern@;
    let re = match regex_new(pattern) {
        Ok(re) => re,
        Err(e) => {
            let mut msg = String::from_str("Invalid regex: ");
            msg.append(e.as_str());
            proof {
                reveal_strlit("Invalid regex: ");
                assert(("Invalid regex: "@).len() == 15);
                assert(msg@.subrange(0, 15) =~= "Invalid regex: "@);
                assert(crate::text::spec_starts_with(msg@, "Invalid regex: "@));
            }
            return Err(msg);
        },
    };
    let mut matches: Vec<GrepMatch> = Vec::new();
    let mut total: usize = 0;
    let mut fi: usize = 0;
    proof {
        assert(spec_hits_upto(files, pat, scope, 0) =~= Seq::<(int, int)>::empty());
    }
    while fi < sources.len()
        invariant
            re == regex_of(pat),
            fi <= files.len(),
            matches@.len() <= max_matches,
            total as int == (if spec_sum_upto(files, pat, scope, fi as int) <= usize::MAX {
                spec_sum_upto(files, pat, scope, fi as int)
            } else {
                usize::MAX as int
            }),
            ({
                let hits = spec_hits_upto(files, pat, scope, fi as int);
                &&& matches@.len() == (if hits.len() <= max_matches {
                    hits.len() as int
                } else {
                    max_matches as int
                })
                &&& forall|k: int|
                    0 <= k < matches@.len() ==> spec_match_fields(
                        #[trigger] matches@[k],
                        files,
                        pat,
                        scope,
                        hits[k].0,
                        hits[k].1,
                        context_lines as int,
                    )
            }),
        decreases files.len() - fi,
    {
        let src = &sources[fi];
        let ghost fv = files[fi as int];
        proof {
            assert(fv == sources@[fi as int].deep_view());
            lemma_sum_nonneg(files, pat, scope, fi as int);
        }
        let excluded_ranges: Vec<(usize, usize)> = if scope == GrepScope::Code
            && src.language.has_tree_sitter_support() {
            compute_non_code_ranges(src.text.as_str(), src.language)
        } else {
            Vec::new()
        };
        let lines = str_lines(src.text.as_str());
        let ghost lv = spec_lines(fv.text);
        // byte offsets of each line start, clamped
        let mut line_offsets: Vec<usize> = Vec::new();
        if scope == GrepScope::Code {
            let mut off: usize = 0;
            let mut li: usize = 0;
            while li < lines.len()
                invariant
                    li <= lines@.len(),
                    lines.deep_view() == lv,
                    lv.len() == lines@.len(),
                    line_offsets@.len() == li,
                    off as int == spec_line_off(lv, li as int),
                    forall|j: int|
                        0 <= j < li ==> (#[trigger] line_offsets@[j]) as int == spec_line_off(
                            lv,
                            j,
                        ),
                decreases lines@.len() - li,
            {
                line_offsets.push(off);
                proof {
                    assert(lines.deep_view()[li as int] == lines@[li as int]@);
                }
                let ll = lines[li].as_str().len();
                let t = if ll > usize::MAX - 1 {
                    usize::MAX
                } else {
                    ll + 1
                };
                off = if off > usize::MAX - t {
                    usize::MAX
                } else {
                    off + t
                };
                li += 1;
            }
        }
        let mut i: usize = 0;
        while i < lines.len()
            invariant
                re == regex_of(pat),
                fi < files.len(),
                fv == files[fi as int],
                *src == sources@[fi as int],
                lines.deep_view() == lv,
                lv == spec_lines(fv.text),
                lv.len() == lines@.len(),
                i <= lv.len(),
                scope == GrepScope::Code ==> line_offsets@.len() == lv.len() && forall|j: int|
                    0 <= j < lv.len() ==> (#[trigger] line_offsets@[j]) as int == spec_line_off(
                        lv,
                        j,
                    ),
                forall|k: int| 0 <= k < excluded_ranges@.len() ==> (#[trigger] excluded_ranges@[k]).0
                    < excluded_ranges@[k].1,
                scope == GrepScope::Code && spec_has_profile(fv.language)
                    && crate::parser::grammar_loads(fv.language) ==> ({
                    let picked = spec_noncode_ranges(fv.language, fv.text);
                    excluded_ranges@.len() == picked.len() && forall|k: int|
                        0 <= k < excluded_ranges@.len() ==> (#[trigger] excluded_ranges@[k]).0
                            == picked[k].sb && excluded_ranges@[k].1 == picked[k].eb
                }),
                !(scope == GrepScope::Code && spec_has_profile(fv.language)
                    && crate::parser::grammar_loads(fv.language)) ==> excluded_ranges@.len() == 0,
                matches@.len() <= max_matches,
                total as int == (if sat_partial(files, pat, scope, fi as int, i as int)
                    <= usize::MAX {
                    sat_partial(files, pat, scope, fi as int, i as int)
                } else {
                    usize::MAX as int
                }),
                ({
                    let hits = spec_hits_upto(files, pat, scope, fi as int)
                        + spec_file_hits_upto(files, pat, scope, fi as int, i as nat);
                    &&& matches@.len() == (if hits.len() <= max_matches {
                        hits.len() as int
                    } else {
                        max_matches as int
                    })
                    &&& forall|k: int|
                        0 <= k < matches@.len() ==> spec_match_fields(
                            #[trigger] matches@[k],
                            files,
                            pat,
                            scope,
                            hits[k].0,
                            hits[k].1,
                            context_lines as int,
                        )
                }),
            decreases lv.len() - i,
        {
            proof {
                lemma_file_hits_snoc(files, pat, scope, fi as int, i as nat);
                assert(lines.deep_view()[i as int] == lines@[i as int]@);
                lemma_file_sum_nonneg(fv, pat, scope, i as int);
                lemma_line_count_nonneg(fv, pat, scope, i as int);
            }
            let line = &lines[i];
            let starts = re_match_starts(&re, pattern, line.as_str());
            let ghost startsv = regex_match_starts(pat, lv[i as int]);
            let cnt: usize = if scope == GrepScope::Code && excluded_ranges.len() > 0 {
                let base = line_offsets[i];
                let mut c: usize = 0;
                let mut si: usize = 0;
                proof {
                    assert(spec_kept_starts(fv, pat, i as int, 0) =~= Seq::<int>::empty());
                }
                while si < starts.len()
                    invariant
                        si <= starts@.len(),
                        starts@.len() == startsv.len(),
                        forall|k: int|
                            0 <= k < starts@.len() ==> (#[trigger] starts@[k]) as int == startsv[k],
                        base as int == spec_line_off(lv, i as int),
                        c as int == spec_kept_starts(fv, pat, i as int, si as int).len(),
                        c <= si,
                    decreases starts@.len() - si,
                {
                    proof {
                        lemma_kept_starts_snoc(fv, pat, i as int, si as int);
                    }
                    let s0 = starts[si];
                    let off = if base > usize::MAX - s0 {
                        usize::MAX
                    } else {
                        base + s0
                    };
                    proof {
                        assert(off as int == sat_add(spec_line_off(lv, i as int), startsv[
                            si as int]));
                    }
                    let excluded = is_in_excluded_range(off, &excluded_ranges);
                    proof {
                        let picked = spec_noncode_ranges(fv.language, fv.text);
                        let ncaps = spec_noncode_caps(fv.language, fv.text);
                        if excluded {
                            let j = choose|j: int|
                                0 <= j < excluded_ranges@.len() && (#[trigger] excluded_ranges@[
                                j]).0 <= off < excluded_ranges@[j].1;
                            assert(picked[j].sb <= off as int && (off as int) < picked[j].eb);
                            lemma_ranges_elem(fv.language, fv.text, ncaps.len() as int, j);
                            assert(spec_covered(fv.language, fv.text, off as int));
                        } else {
                            if spec_covered(fv.language, fv.text, off as int) {
                                let k = choose|k: int|
                                    0 <= k < ncaps.len() && (#[trigger] ncaps[k]).sb
                                        <= off as int && (off as int) < ncaps[k].eb;
                                lemma_ranges_complete(
                                    fv.language,
                                    fv.text,
                                    ncaps.len() as int,
                                    k,
                                );
                                let j = choose|j: int|
                                    0 <= j < picked.len() && picked[j] == ncaps[k];
                                assert(excluded_ranges@[j].0 <= off < excluded_ranges@[j].1);
                            }
                        }
                    }
                    if !excluded {
                        c += 1;
                    }
                    si += 1;
                }
                proof {
                    assert(spec_line_count(fv, pat, scope, i as int) == c as int) by {
                        assert(spec_ranges_exist(fv.language, fv.text)) by {
                            let picked = spec_noncode_ranges(fv.language, fv.text);
                            let ncaps = spec_noncode_caps(fv.language, fv.text);
                            assert(picked.len() > 0);
                            lemma_ranges_elem(fv.language, fv.text, ncaps.len() as int, 0);
                        }
                    }
                }
                c
            } else {
                proof {
                    assert(spec_line_count(fv, pat, scope, i as int) == startsv.len()) by {
                        if scope == GrepScope::Code && spec_has_profile(fv.language)
                            && crate::parser::grammar_loads(fv.language) {
                            if spec_ranges_exist(fv.language, fv.text) {
                                let ncaps = spec_noncode_caps(fv.language, fv.text);
                                let k = choose|k: int|
                                    0 <= k < ncaps.len() && (#[trigger] ncaps[k]).sb < ncaps[
                                        k].eb;
                                lemma_ranges_complete(
                                    fv.language,
                                    fv.text,
                                    ncaps.len() as int,
                                    k,
                                );
                                assert(spec_noncode_ranges(fv.language, fv.text).len() > 0);
                                assert(excluded_ranges@.len() > 0);
                                assert(false);
                            }
                        }
                    }
                }
                starts.len()
            };
            let counted = cnt > 0;
            total = if total > usize::MAX - cnt {
                usize::MAX
            } else {
                total + cnt
            };
            if counted {
                if matches.len() < max_matches {
                    let ctx_start = if i >= context_lines {
                        i - context_lines
                    } else {
                        0
                    };
                    let ctx_end_raw = if context_lines > usize::MAX - 1 - i {
                        usize::MAX
                    } else {
                        i + 1 + context_lines
                    };
                    let ctx_end = if ctx_end_raw <= lines.len() {
                        ctx_end_raw
                    } else {
                        lines.len()
                    };
                    let m = GrepMatch {
                        file: sources[fi].path.clone(),
                        line: i + 1,
                        text: line.clone(),
                        context_before: clone_lines_range(&lines, ctx_start, i),
                        context_after: clone_lines_range(&lines, i + 1, ctx_end),
                    };
                    proof {
                        let spec_cs = if i as int >= context_lines as int {
                            i - context_lines
                        } else {
                            0int
                        };
                        let spec_ce = if i + 1 + context_lines <= lv.len() {
                            i + 1 + context_lines
                        } else {
                            lv.len() as int
                        };
                        assert(ctx_start == spec_cs);
                        assert(ctx_end == spec_ce);
                        assert(files[fi as int] == sources@[fi as int].deep_view());
                        assert(m.file@ == fv.path);
                        assert(m.text@ == lv[i as int]);
                        assert(m.context_before.deep_view() == lv.subrange(spec_cs, i as int));
                        assert(m.context_after.deep_view() == lv.subrange(i + 1, spec_ce));
                        assert(spec_match_fields(
                            m,
                            files,
                            pat,
                            scope,
                            fi as int,
                            i as int,
                            context_lines as int,
                        ));
                    }
                    let ghost pre = matches@;
                    matches.push(m);
                    proof {
                        assert(forall|k: int| 0 <= k < pre.len() ==> matches@[k] == pre[k]);
                    }
                }
            }
            i += 1;
        }
        proof {
            assert(spec_file_hits_upto(files, pat, scope, fi as int, lv.len())
                == spec_file_hits(files, pat, scope, fi as int));
            assert(spec_hits_upto(files, pat, scope, (fi + 1) as int) == spec_hits_upto(
                files,
                pat,
                scope,
                fi as int,
            ) + spec_file_hits(files, pat, scope, fi as int));
            assert(sat_partial(files, pat, scope, fi as int, lv.len() as int) == spec_sum_upto(
                files,
                pat,
                scope,
                (fi + 1) as int,
            ));
        }
        fi += 1;
    }
    proof {
        assert(spec_hits_upto(files, pat, scope, files.len() as int) == spec_hits_all(
            files,
            pat,
            scope,
        ));
    }
    let truncated = total > max_matches;
    Ok(
        GrepResponse {
            pattern: String::from_str(pattern),
            matches,
            total_matches: total,
            truncated,
        },
    )
}

/// The occurrence sum up to file `fi`, plus the first `l` lines of that
/// file.
pub open spec fn sat_partial(
    files: Seq<GrepSourceView>,
    pat: Seq<char>,
    scope: GrepScope,
    fi: int,
    l: int,
) -> int {
    spec_sum_upto(files, pat, scope, fi) + spec_file_sum_upto(files[fi], pat, scope, l)
}

/// Grep with the unrestricted scope.
pub fn grep(
    sources: &Vec<GrepSource>,
    pattern: &str,
    max_matches: usize,
    context_lines: usize,
) -> (r: Result<GrepResponse, String>)
    ensures
        r is Ok <==> regex_ok(pattern@),
        match r {
            Ok(resp) => {
                let files = sources.deep_view();
                let hits = spec_hits_all(files, pattern@, GrepScope::All);
                let total = spec_total(files, pattern@, GrepScope::All);
                &&& resp.pattern@ == pattern@
                &&& resp.total_matches == (if total <= usize::MAX {
                    total
                } else {
                    usize::MAX as int
                })
                &&& resp.truncated == (resp.total_matches > max_matches)
                &&& resp.matches@.len() == (if hits.len() <= max_matches {
                    hits.len() as int
                } else {
                    max_matches as int
                })
                &&& forall|k: int|
                    0 <= k < resp.matches@.len() ==> spec_match_fields(
                        #[trigger] resp.matches@[k],
                        files,
                        pattern@,
                        GrepScope::All,
                        hits[k].0,
                        hits[k].1,
                        context_lines as int,
                    )
            },
            Err(m) => crate::text::spec_starts_with(m@, "Invalid regex: "@),
        },
{
    grep_with_scope(sources, pattern, max_matches, context_lines, GrepScope::All)
}

} // verus!