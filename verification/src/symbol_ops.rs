//! Symbol-level queries: listing, search, implementation fetch, agent
//! definitions, caller search, test lookup and variable enumeration.
use vstd::prelude::*;
use crate::file_entry::{spec_has_profile, Language};
use crate::parser::{ts_parse, ts_query_run, RawCapture};
use crate::queries::get_language_config;
use crate::strmap::KeySet;
use crate::symbol::{Symbol, SymbolKind};
use crate::symbol_table::{spec_key, SymbolTable};
use crate::text::{
    lex_leq, spec_contains, spec_lines, spec_starts_with, spec_ends_with, str_contains, str_eq,
    str_lines, str_starts_with, str_ends_with,
};
use vstd::string::StrSliceExecFns;
use vstd::string::StringExecFns;
use vstd::string::StringSliceAdditionalSpecFns;

verus! {

/// Order for symbol listings: by file, then by starting line.
pub open spec fn spec_sym_leq(a: Symbol, b: Symbol) -> bool {
    if a.file@ == b.file@ {
        a.line_range.0 <= b.line_range.0
    } else {
        lex_leq(a.file@, b.file@)
    }
}

proof fn lemma_sym_trans(a: Symbol, b: Symbol, c: Symbol)
    requires
        spec_sym_leq(a, b),
        spec_sym_leq(b, c),
    ensures
        spec_sym_leq(a, c),
{
    if a.file@ == b.file@ && b.file@ == c.file@ {
    } else if a.file@ == b.file@ {
    } else if b.file@ == c.file@ {
    } else {
        if a.file@ == c.file@ {
            crate::text::lemma_lex_antisym(a.file@, b.file@);
        } else {
            crate::text::lemma_lex_trans(a.file@, b.file@, c.file@);
        }
    }
}

fn sym_le(a: &Symbol, b: &Symbol) -> (r: bool)
    ensures
        r == spec_sym_leq(*a, *b),
{
    if str_eq(a.file.as_str(), b.file.as_str()) {
        a.line_range.0 <= b.line_range.0
    } else {
        crate::text::str_le(a.file.as_str(), b.file.as_str())
    }
}

/// Order the symbols by file and line, by repeated neighbour swaps. The
/// result holds the same records as the input.
fn sort_symbols(v0: Vec<Symbol>) -> (r: Vec<Symbol>)
    ensures
        r@.len() == v0@.len(),
        forall|a: int, b: int| 0 <= a < b < r@.len() ==> spec_sym_leq(r@[a], r@[b]),
        r@.to_multiset() == v0@.to_multiset(),
{
    broadcast use vstd::seq_lib::group_to_multiset_ensures;

    let mut v = v0;
    if v.len() == 0 {
        return v;
    }
    let mut i: usize = 1;
    while i < v.len()
        invariant
            1 <= i,
            v@.len() == v0@.len(),
            forall|a: int, b: int| 0 <= a < b < i ==> spec_sym_leq(v@[a], v@[b]),
            v@.to_multiset() == v0@.to_multiset(),
        decreases v@.len() - i,
    {
        let mut j: usize = i;
        while j > 0 && !sym_le(&v[j - 1], &v[j])
            invariant
                j <= i < v@.len(),
                v@.len() == v0@.len(),
                forall|a: int, b: int|
                    0 <= a < b <= i && a != j && b != j ==> spec_sym_leq(v@[a], v@[b]),
                forall|b: int| j < b <= i ==> spec_sym_leq(v@[j as int], v@[b]),
                v@.to_multiset() == v0@.to_multiset(),
            decreases j,
        {
            let ghost prev = v@;
            let e = v.remove(j);
            v.insert(j - 1, e);
            proof {
                broadcast use vstd::multiset::group_multiset_axioms;

                assert(v@.len() == prev.len());
                assert(v@[j - 1 as int] == prev[j as int]);
                assert(v@[j as int] == prev[j - 1 as int]);
                assert(forall|k: int|
                    0 <= k < v@.len() && k != j - 1 && k != j ==> v@[k] == prev[k]);
                vstd::seq_lib::to_multiset_remove(prev, j as int);
                vstd::seq_lib::to_multiset_insert(prev.remove(j as int), j - 1, e);
                assert(v@ == prev.remove(j as int).insert(j - 1, e));
                vstd::seq_lib::to_multiset_contains(prev, prev[j as int]);
                assert(prev.contains(prev[j as int]));
                assert(v@.to_multiset() =~= prev.to_multiset());
                crate::text::lemma_lex_total(v@[j - 1 as int].file@, v@[j as int].file@);
            }
            j -= 1;
        }
        proof {
            assert forall|a: int, b: int| 0 <= a < b <= i implies spec_sym_leq(v@[a], v@[b]) by {
                if b == j as int && a < j as int {
                    assert(j > 0 ==> spec_sym_leq(v@[j - 1 as int], v@[j as int]));
                    if a < j - 1 {
                        assert(spec_sym_leq(v@[a], v@[j - 1 as int]));
                        lemma_sym_trans(v@[a], v@[j - 1 as int], v@[j as int]);
                    }
                }
            }
        }
        i += 1;
    }
    v
}

/// The record stands somewhere in the listing.
pub open spec fn spec_listed(s: Symbol, rs: Seq<Symbol>) -> bool {
    exists|k: int| 0 <= k < rs.len() && rs[k] == s
}

/// A symbol passes the optional kind and file filters.
pub open spec fn spec_passes_filters(
    s: Symbol,
    kind_filter: Option<SymbolKind>,
    file_filter: Option<Seq<char>>,
) -> bool {
    &&& match kind_filter {
        Some(k) => s.kind == k,
        None => true,
    }
    &&& match file_filter {
        Some(f) => s.file@ == f,
        None => true,
    }
}

/// List symbols, optionally restricted to a kind and a file, ordered by
/// file and starting line, truncated to `limit`. Every listed record is
/// a live record of the table and passes the filters.
pub fn list_symbols(
    symbol_table: &SymbolTable,
    kind_filter: Option<SymbolKind>,
    file_filter: Option<&str>,
    limit: usize,
) -> (r: Vec<Symbol>)
    requires
        symbol_table.inv(),
    ensures
        r@.len() <= limit,
        forall|a: int, b: int| 0 <= a < b < r@.len() ==> spec_sym_leq(r@[a], r@[b]),
        forall|k: int|
            0 <= k < r@.len() ==> spec_passes_filters(
                #[trigger] r@[k],
                kind_filter,
                match file_filter {
                    Some(f) => Some(f@),
                    None => None,
                },
            ),
        forall|k: int|
            0 <= k < r@.len() ==> symbol_table.symbols@.contains_key(
                spec_key((#[trigger] r@[k]).file@, r@[k].name@),
            ),
        forall|j: int|
            0 <= j < symbol_table.symbols.entries@.len() && spec_passes_filters(
                (#[trigger] symbol_table.symbols.entries@[j]).1,
                kind_filter,
                match file_filter {
                    Some(f) => Some(f@),
                    None => None,
                },
            ) ==> spec_listed(symbol_table.symbols.entries@[j].1, r@) || (r@.len() == limit
                && forall|k: int|
                0 <= k < r@.len() ==> spec_sym_leq(
                    #[trigger] r@[k],
                    symbol_table.symbols.entries@[j].1,
                )),
{
    let ghost ff: Option<Seq<char>> = match file_filter {
        Some(f) => Some(f@),
        None => None,
    };
    let base: Vec<Symbol> = match file_filter {
        Some(f) => symbol_table.list_by_file(f),
        None => symbol_table.all_symbols(),
    };
    proof {
        symbol_table.lemma_indices_exact();
        symbol_table.symbols.lemma_entries_in_view();
        assert forall|k: int| 0 <= k < base@.len() implies symbol_table.symbols@.contains_key(
            spec_key((#[trigger] base@[k]).file@, base@[k].name@),
        ) by {
            match file_filter {
                Some(f) => {
                    if symbol_table.by_file@.contains_key(f@) {
                        let ks = symbol_table.by_file@[f@].key_seq();
                        symbol_table.by_file@[f@].lemma_entries_in_view();
                        assert(base@[k] == symbol_table.symbols@[ks[k]]);
                        assert(symbol_table.by_file@[f@]@.contains_key(
                            symbol_table.by_file@[f@].entries@[k].0@,
                        ));
                        assert(symbol_table.file_keys(f@).contains(ks[k]));
                    }
                },
                None => {
                    assert(base@[k] == symbol_table.symbols.entries@[k].1);
                    assert(symbol_table.symbols@.contains_key(
                        symbol_table.symbols.entries@[k].0@,
                    ));
                },
            }
        }
        assert forall|k: int| 0 <= k < base@.len() implies (match ff {
            Some(f) => (#[trigger] base@[k]).file@ == f,
            None => true,
        }) by {
            match file_filter {
                Some(f) => {
                    if symbol_table.by_file@.contains_key(f@) {
                        let ks = symbol_table.by_file@[f@].key_seq();
                        symbol_table.by_file@[f@].lemma_entries_in_view();
                        assert(symbol_table.by_file@[f@]@.contains_key(
                            symbol_table.by_file@[f@].entries@[k].0@,
                        ));
                        assert(symbol_table.file_keys(f@).contains(ks[k]));
                        assert(base@[k] == symbol_table.symbols@[ks[k]]);
                    }
                },
                None => {},
            }
        }
    }
    proof {
        // every table record passing the file filter stands in the base
        symbol_table.lemma_indices_exact();
        assert forall|j: int|
            0 <= j < symbol_table.symbols.entries@.len() && (match ff {
                Some(f) => (#[trigger] symbol_table.symbols.entries@[j]).1.file@ == f,
                None => true,
            }) implies spec_listed(symbol_table.symbols.entries@[j].1, base@) by {
            let sym = symbol_table.symbols.entries@[j].1;
            let key = symbol_table.symbols.entries@[j].0@;
            assert(symbol_table.symbols@.contains_key(key));
            assert(symbol_table.symbols@[key] == sym);
            assert(key == spec_key(sym.file@, sym.name@));
            match file_filter {
                Some(f) => {
                    assert(symbol_table.file_keys(f@).contains(key));
                    assert(symbol_table.by_file@.contains_key(f@));
                    let ks = symbol_table.by_file@[f@].key_seq();
                    symbol_table.by_file@[f@].lemma_entries_in_view();
                    let kk = choose|kk: int|
                        0 <= kk < symbol_table.by_file@[f@].entries@.len() && (
                        #[trigger] symbol_table.by_file@[f@].entries@[kk]).0@ == key;
                    assert(ks[kk] == key);
                    assert(base@[kk] == symbol_table.symbols@[ks[kk]]);
                    assert(base@[kk] == sym);
                },
                None => {
                    assert(base@[j] == sym);
                },
            }
        }
    }
    let mut kept: Vec<Symbol> = Vec::new();
    let mut i: usize = 0;
    while i < base.len()
        invariant
            symbol_table.inv(),
            i <= base@.len(),
            forall|k: int|
                0 <= k < base@.len() ==> symbol_table.symbols@.contains_key(
                    spec_key((#[trigger] base@[k]).file@, base@[k].name@),
                ),
            forall|k: int|
                0 <= k < base@.len() ==> (match ff {
                    Some(f) => (#[trigger] base@[k]).file@ == f,
                    None => true,
                }),
            forall|k: int|
                0 <= k < kept@.len() ==> spec_passes_filters(#[trigger] kept@[k], kind_filter, ff)
                    && symbol_table.symbols@.contains_key(spec_key(kept@[k].file@, kept@[k].name@)),
            forall|k: int|
                0 <= k < i && spec_passes_filters(#[trigger] base@[k], kind_filter, ff)
                    ==> spec_listed(base@[k], kept@),
        decreases base@.len() - i,
    {
        let keep = match kind_filter {
            Some(k) => base[i].kind == k,
            None => true,
        };
        if keep {
            let ghost pre = kept@;
            kept.push(base[i].duplicate());
            proof {
                assert(forall|k: int| 0 <= k < pre.len() ==> kept@[k] == pre[k]);
                assert(kept@[pre.len() as int] == base@[i as int]);
                assert forall|k: int|
                    0 <= k < i + 1 && spec_passes_filters(#[trigger] base@[k], kind_filter, ff)
                        implies spec_listed(base@[k], kept@) by {
                    if k < i {
                        let q = choose|q: int| 0 <= q < pre.len() && pre[q] == base@[k];
                        assert(kept@[q] == base@[k]);
                    } else {
                        assert(kept@[pre.len() as int] == base@[k]);
                    }
                }
            }
        } else {
            proof {
                assert forall|k: int|
                    0 <= k < i + 1 && spec_passes_filters(#[trigger] base@[k], kind_filter, ff)
                        implies spec_listed(base@[k], kept@) by {
                    if k < i {
                    } else {
                        assert(!spec_passes_filters(base@[k], kind_filter, ff));
                    }
                }
            }
        }
        i += 1;
    }
    let sorted = sort_symbols(kept);
    proof {
        broadcast use vstd::seq_lib::group_to_multiset_ensures;

        assert forall|k: int| 0 <= k < sorted@.len() implies spec_passes_filters(
            #[trigger] sorted@[k],
            kind_filter,
            ff,
        ) && symbol_table.symbols@.contains_key(
            spec_key(sorted@[k].file@, sorted@[k].name@),
        ) by {
            assert(sorted@.contains(sorted@[k]));
            assert(sorted@.to_multiset().contains(sorted@[k]));
        }
    }
    proof {
        broadcast use vstd::seq_lib::group_to_multiset_ensures;

        // everything kept survives the sort
        assert forall|j: int|
            0 <= j < symbol_table.symbols.entries@.len() && spec_passes_filters(
                (#[trigger] symbol_table.symbols.entries@[j]).1,
                kind_filter,
                ff,
            ) implies spec_listed(symbol_table.symbols.entries@[j].1, sorted@) by {
            let sym = symbol_table.symbols.entries@[j].1;
            assert(spec_listed(sym, base@));
            let q = choose|q: int| 0 <= q < base@.len() && base@[q] == sym;
            assert(spec_listed(base@[q], kept@));
            let q2 = choose|q2: int| 0 <= q2 < kept@.len() && kept@[q2] == sym;
            assert(kept@.contains(sym));
            assert(kept@.to_multiset().contains(sym));
            assert(sorted@.contains(sym));
            let q3 = choose|q3: int| 0 <= q3 < sorted@.len() && sorted@[q3] == sym;
        }
    }
    let mut out = sorted;
    if out.len() > limit {
        out.truncate(limit);
        proof {
            assert(forall|k: int| 0 <= k < out@.len() ==> out@[k] == sorted@[k]);
        }
    }
    proof {
        assert forall|j: int|
            0 <= j < symbol_table.symbols.entries@.len() && spec_passes_filters(
                (#[trigger] symbol_table.symbols.entries@[j]).1,
                kind_filter,
                ff,
            ) implies spec_listed(symbol_table.symbols.entries@[j].1, out@) || (out@.len() == limit
            && forall|k: int|
            0 <= k < out@.len() ==> spec_sym_leq(
                #[trigger] out@[k],
                symbol_table.symbols.entries@[j].1,
            )) by {
            let sym = symbol_table.symbols.entries@[j].1;
            let q = choose|q: int| 0 <= q < sorted@.len() && sorted@[q] == sym;
            if q < out@.len() {
                assert(out@[q] == sym);
                assert(spec_listed(sym, out@));
            } else {
                assert(sorted@.len() > limit);
                assert(out@.len() == limit);
                assert forall|k: int| 0 <= k < out@.len() implies spec_sym_leq(
                    #[trigger] out@[k],
                    sym,
                ) by {
                    assert(out@[k] == sorted@[k]);
                    assert(spec_sym_leq(sorted@[k], sorted@[q]));
                }
            }
        }
    }
    out
}

/// Case-insensitive substring search over symbol names, capped at
/// `limit`.
pub fn search_symbols(symbol_table: &SymbolTable, query: &str, limit: usize) -> (r: Vec<Symbol>)
    ensures
        ({
            let all = symbol_table.symbols.entries@.map_values(|e: (String, Symbol)| e.1);
            let m = all.filter(|s: Symbol| SymbolTable::spec_matches_query(s, query@));
            r@ == m.take(if limit <= m.len() {
                limit as int
            } else {
                m.len() as int
            })
        }),
{
    symbol_table.search(query, limit)
}

/// Relies on String::from_utf8: succeeds exactly on well-formed UTF-8 and
/// decodes those bytes.
#[verifier::external_body]
fn bytes_to_string(v: Vec<u8>) -> (r: Option<String>)
    ensures
        r is Some <==> vstd::utf8::valid_utf8(v@),
        match r {
            Some(s) => s@ == vstd::utf8::decode_utf8(v@),
            None => true,
        },
{
    String::from_utf8(v).ok()
}

/// Fetch a symbol's source text: the byte range of the record, clamped at
/// the file end, decoded as UTF-8. Fails when the symbol is unknown, the
/// range is inverted, or the slice is not well-formed UTF-8.
pub fn get_implementation(
    symbol_table: &SymbolTable,
    symbol_name: &str,
    file: &str,
    source: &str,
) -> (r: Result<String, String>)
    ensures
        ({
            let k = spec_key(file@, symbol_name@);
            let bytes = source.spec_bytes();
            let ok_owed = symbol_table.symbols@.contains_key(k) && {
                let sym = symbol_table.symbols@[k];
                let start = sym.byte_range.0 as int;
                let end = if sym.byte_range.1 <= bytes.len() {
                    sym.byte_range.1 as int
                } else {
                    bytes.len() as int
                };
                start <= end && vstd::utf8::valid_utf8(bytes.subrange(start, end))
            };
            r is Ok <==> ok_owed
        }),
        match r {
            Ok(text) => {
                let sym = symbol_table.symbols@[spec_key(file@, symbol_name@)];
                let bytes = source.spec_bytes();
                let start = sym.byte_range.0 as int;
                let end = if sym.byte_range.1 <= bytes.len() {
                    sym.byte_range.1 as int
                } else {
                    bytes.len() as int
                };
                text@ == vstd::utf8::decode_utf8(bytes.subrange(start, end))
            },
            Err(_) => true,
        },
{
    let sym = match symbol_table.get(file, symbol_name) {
        Some(s) => s,
        None => {
            let mut msg = String::from_str("Symbol '");
            msg.append(symbol_name);
            msg.append("' not found in '");
            msg.append(file);
            msg.append("'");
            return Err(msg);
        },
    };
    let bytes = source.as_bytes();
    let blen = bytes.len();
    let start = sym.byte_range.0;
    let end = if sym.byte_range.1 <= blen {
        sym.byte_range.1
    } else {
        blen
    };
    if start > end {
        return Err(String::from_str("Symbol byte range lies outside the file"));
    }
    let slice = vstd::slice::slice_subrange(bytes, start, end);
    let mut owned: Vec<u8> = Vec::new();
    let mut i: usize = 0;
    while i < slice.len()
        invariant
            i <= slice@.len(),
            owned@ =~= slice@.take(i as int),
        decreases slice@.len() - i,
    {
        owned.push(slice[i]);
        proof {
            assert(owned@ =~= slice@.take((i + 1) as int));
        }
        i += 1;
    }
    proof {
        assert(slice@.take(slice@.len() as int) =~= slice@);
    }
    match bytes_to_string(owned) {
        Some(s) => Ok(s),
        None => Err(String::from_str("Symbol bytes are not valid UTF-8")),
    }
}

/// Attach a definition to a symbol that has none yet. Fails when the
/// symbol is unknown or already defined.
pub fn define_symbol(
    symbol_table: &mut SymbolTable,
    symbol_name: &str,
    file: &str,
    definition: &str,
) -> (r: Result<(), String>)
    requires
        old(symbol_table).inv(),
    ensures
        final(symbol_table).inv(),
        r is Ok <==> (old(symbol_table).symbols@.contains_key(spec_key(file@, symbol_name@)) && old(
            symbol_table,
        ).symbols@[spec_key(file@, symbol_name@)].definition is None),
        match r {
            Ok(_) => {
                let k = spec_key(file@, symbol_name@);
                let updated = final(symbol_table).symbols@[k];
                &&& final(symbol_table).symbols@.contains_key(k)
                &&& crate::parser::opt_view(updated.definition) == Some(definition@)
                &&& crate::symbol::spec_sym_same_but_definition(
                    updated,
                    old(symbol_table).symbols@[k],
                )
                &&& forall|k2: Seq<char>|
                    k2 != k ==> (final(symbol_table).symbols@.contains_key(k2) == old(
                        symbol_table,
                    ).symbols@.contains_key(k2)) && (old(symbol_table).symbols@.contains_key(k2)
                        ==> final(symbol_table).symbols@[k2] == old(symbol_table).symbols@[k2])
            },
            Err(_) => final(symbol_table).symbols@ == old(symbol_table).symbols@,
        },
{
    let sym = match symbol_table.get(file, symbol_name) {
        Some(s) => s,
        None => {
            let mut msg = String::from_str("Symbol '");
            msg.append(symbol_name);
            msg.append("' not found in '");
            msg.append(file);
            msg.append("'");
            return Err(msg);
        },
    };
    if sym.definition.is_some() {
        let mut msg = String::from_str("Symbol '");
        msg.append(symbol_name);
        msg.append("' in '");
        msg.append(file);
        msg.append("' already has a definition. Use redefine.");
        return Err(msg);
    }
    let mut updated = sym;
    updated.definition = Some(String::from_str(definition));
    let ghost k = spec_key(file@, symbol_name@);
    proof {
        assert(spec_key(updated.file@, updated.name@) == k);
    }
    symbol_table.insert(updated);
    Ok(())
}

/// Attach or replace a symbol's definition. Fails only when the symbol
/// is unknown.
pub fn redefine_symbol(
    symbol_table: &mut SymbolTable,
    symbol_name: &str,
    file: &str,
    definition: &str,
) -> (r: Result<(), String>)
    requires
        old(symbol_table).inv(),
    ensures
        final(symbol_table).inv(),
        r is Ok <==> old(symbol_table).symbols@.contains_key(spec_key(file@, symbol_name@)),
        match r {
            Ok(_) => {
                let k = spec_key(file@, symbol_name@);
                &&& final(symbol_table).symbols@.contains_key(k)
                &&& crate::parser::opt_view(final(symbol_table).symbols@[k].definition) == Some(definition@)
                &&& crate::symbol::spec_sym_same_but_definition(
                    final(symbol_table).symbols@[k],
                    old(symbol_table).symbols@[k],
                )
                &&& forall|k2: Seq<char>|
                    k2 != k ==> (final(symbol_table).symbols@.contains_key(k2) == old(
                        symbol_table,
                    ).symbols@.contains_key(k2)) && (old(symbol_table).symbols@.contains_key(k2)
                        ==> final(symbol_table).symbols@[k2] == old(symbol_table).symbols@[k2])
            },
            Err(_) => final(symbol_table).symbols@ == old(symbol_table).symbols@,
        },
{
    let sym = match symbol_table.get(file, symbol_name) {
        Some(s) => s,
        None => {
            let mut msg = String::from_str("Symbol '");
            msg.append(symbol_name);
            msg.append("' not found in '");
            msg.append(file);
            msg.append("'");
            return Err(msg);
        },
    };
    let mut updated = sym;
    updated.definition = Some(String::from_str(definition));
    proof {
        assert(spec_key(updated.file@, updated.name@) == spec_key(file@, symbol_name@));
    }
    symbol_table.insert(updated);
    Ok(())
}

pub struct CallerInfo {
    pub file: String,
    pub line: usize,
    pub text: String,
}

/// The line a zero-based row refers to, empty when out of range.
pub open spec fn spec_row_line(lines: Seq<Seq<char>>, row: int) -> Seq<char> {
    if 0 <= row < lines.len() {
        lines[row]
    } else {
        Seq::empty()
    }
}

/// The declaration of `name` stands on this line, by the language's
/// keyword fragment.
pub open spec fn spec_is_definition_line(line: Seq<char>, name: Seq<char>, language: Language) -> bool {
    match language {
        Language::Rust => spec_contains(line, "fn "@ + name),
        Language::Python => spec_contains(line, "def "@ + name),
        Language::TypeScript => spec_contains(line, "function "@ + name) || spec_contains(
            line,
            name + " ="@,
        ),
        Language::JavaScript => spec_contains(line, "function "@ + name) || spec_contains(
            line,
            name + " ="@,
        ),
        Language::Go => spec_contains(line, "func "@ + name),
        _ => false,
    }
}

/// Whether the line declares `name`, by the language's keyword fragment.
pub fn is_definition_line(line: &str, name: &str, language: Language) -> (r: bool)
    ensures
        r == spec_is_definition_line(line@, name@, language),
{
    match language {
        Language::Rust => {
            let needle = String::from_str("fn ").concat(name);
            str_contains(line, needle.as_str())
        },
        Language::Python => {
            let needle = String::from_str("def ").concat(name);
            str_contains(line, needle.as_str())
        },
        Language::TypeScript | Language::JavaScript => {
            let n1 = String::from_str("function ").concat(name);
            let n2 = String::from_str(name).concat(" =");
            str_contains(line, n1.as_str()) || str_contains(line, n2.as_str())
        },
        Language::Go => {
            let needle = String::from_str("func ").concat(name);
            str_contains(line, needle.as_str())
        },
        _ => false,
    }
}

/// A capture that reports a call of `name`, outside the declaration line
/// when scanning the defining file itself.
pub open spec fn spec_is_caller_cap(
    c: crate::parser::CaptureView,
    lines: Seq<Seq<char>>,
    name: Seq<char>,
    rel_path: Seq<char>,
    definition_file: Seq<char>,
    language: Language,
) -> bool {
    &&& c.name == "callee"@
    &&& c.text == name
    &&& !(rel_path == definition_file && spec_is_definition_line(
        spec_row_line(lines, c.sr),
        name,
        language,
    ))
}

/// The caller captures among the first `n` of the stream.
pub open spec fn spec_caller_caps_upto(
    caps: Seq<crate::parser::CaptureView>,
    lines: Seq<Seq<char>>,
    name: Seq<char>,
    rel_path: Seq<char>,
    definition_file: Seq<char>,
    language: Language,
    n: int,
) -> Seq<crate::parser::CaptureView> {
    caps.take(n).filter(
        |c: crate::parser::CaptureView|
            spec_is_caller_cap(c, lines, name, rel_path, definition_file, language),
    )
}

proof fn lemma_caller_caps_snoc(
    caps: Seq<crate::parser::CaptureView>,
    lines: Seq<Seq<char>>,
    name: Seq<char>,
    rel_path: Seq<char>,
    definition_file: Seq<char>,
    language: Language,
    n: int,
)
    requires
        0 <= n < caps.len(),
    ensures
        spec_caller_caps_upto(caps, lines, name, rel_path, definition_file, language, n + 1)
            == if spec_is_caller_cap(caps[n], lines, name, rel_path, definition_file, language) {
            spec_caller_caps_upto(caps, lines, name, rel_path, definition_file, language, n).push(
                caps[n],
            )
        } else {
            spec_caller_caps_upto(caps, lines, name, rel_path, definition_file, language, n)
        },
{
    reveal(Seq::filter);
    assert(caps.take(n + 1) =~= caps.take(n).push(caps[n]));
    assert(caps.take(n).push(caps[n]).drop_last() =~= caps.take(n));
    let f = |c: crate::parser::CaptureView|
        spec_is_caller_cap(c, lines, name, rel_path, definition_file, language);
    if f(caps[n]) {
        assert(spec_caller_caps_upto(caps, lines, name, rel_path, definition_file, language, n + 1)
            =~= spec_caller_caps_upto(
            caps,
            lines,
            name,
            rel_path,
            definition_file,
            language,
            n,
        ).push(caps[n]));
    } else {
        assert(spec_caller_caps_upto(caps, lines, name, rel_path, definition_file, language, n + 1)
            =~= spec_caller_caps_upto(caps, lines, name, rel_path, definition_file, language, n));
    }
}

/// Callers of `symbol_name` in one parsed file: one entry per `callee`
/// capture whose text is the name, skipping the declaration line of the
/// defining file; each entry carries the file, the 1-indexed line and the
/// trimmed line text.
pub fn find_callers_ast(
    source: &str,
    rel_path: &str,
    language: Language,
    symbol_name: &str,
    definition_file: &str,
) -> (r: Vec<CallerInfo>)
    requires
        source.spec_bytes().len() < usize::MAX,
    ensures
        ({
            let lines = spec_lines(source@);
            let caps = crate::parser::ts_query_caps(
                language,
                crate::queries::spec_callers_query(language),
                source@,
                0,
                (source.spec_bytes().len() as usize) as int,
            );
            let picked = spec_caller_caps_upto(
                caps,
                lines,
                symbol_name@,
                rel_path@,
                definition_file@,
                language,
                caps.len() as int,
            );
            spec_has_profile(language) && crate::parser::grammar_loads(language) ==> (r@.len()
                == picked.len() && forall|k: int|
                0 <= k < r@.len() ==> {
                    let c = picked[k];
                    (#[trigger] r@[k]).file@ == rel_path@ && r@[k].line == c.sr + 1
                        && r@[k].text@ == crate::text::spec_trim(spec_row_line(lines, c.sr))
                })
        }),
        !(spec_has_profile(language) && crate::parser::grammar_loads(language)) ==> r@.len() == 0,
{
    let cfg = match get_language_config(language) {
        Some(c) => c,
        None => {
            return Vec::new();
        },
    };
    let tree = match ts_parse(&cfg.language, &language, source) {
        Some(t) => t,
        None => {
            return Vec::new();
        },
    };
    let caps = ts_query_run(
        &cfg.language,
        &language,
        &tree,
        cfg.callers_query,
        source,
        0,
        source.len(),
    );
    let ghost capsv = caps.deep_view();
    let ghost lv = spec_lines(source@);
    let lines = str_lines(source);
    proof {
        crate::text::lemma_lines_len(source@);
        assert(capsv.take(0) =~= Seq::<crate::parser::CaptureView>::empty());
        assert(spec_caller_caps_upto(
            capsv,
            lv,
            symbol_name@,
            rel_path@,
            definition_file@,
            language,
            0,
        ) =~= Seq::<crate::parser::CaptureView>::empty());
    }
    let mut out: Vec<CallerInfo> = Vec::new();
    let same_file = str_eq(rel_path, definition_file);
    let mut i: usize = 0;
    while i < caps.len()
        invariant
            capsv == caps.deep_view(),
            capsv.len() == caps@.len(),
            lv == spec_lines(source@),
            lines.deep_view() == lv,
            lv.len() == lines@.len(),
            same_file == (rel_path@ == definition_file@),
            i <= capsv.len(),
            forall|k: int|
                0 <= k < capsv.len() ==> (#[trigger] capsv[k]).sr <= capsv[k].er < usize::MAX,
            ({
                let picked = spec_caller_caps_upto(
                    capsv,
                    lv,
                    symbol_name@,
                    rel_path@,
                    definition_file@,
                    language,
                    i as int,
                );
                out@.len() == picked.len() && forall|k: int|
                    0 <= k < out@.len() ==> {
                        let c = picked[k];
                        (#[trigger] out@[k]).file@ == rel_path@ && out@[k].line == c.sr + 1
                            && out@[k].text@ == crate::text::spec_trim(spec_row_line(lv, c.sr))
                    }
            }),
        decreases capsv.len() - i,
    {
        proof {
            lemma_caller_caps_snoc(
                capsv,
                lv,
                symbol_name@,
                rel_path@,
                definition_file@,
                language,
                i as int,
            );
            assert(capsv[i as int] == caps@[i as int].deep_view());
        }
        let c = &caps[i];
        if str_eq(c.name.as_str(), "callee") && str_eq(c.text.as_str(), symbol_name) {
            let line_text: String = if c.sr < lines.len() {
                let r = lines[c.sr].clone();
                proof {
                    assert(lines.deep_view()[c.sr as int] == lines@[c.sr as int]@);
                }
                r
            } else {
                String::new()
            };
            let is_def = same_file && is_definition_line(
                line_text.as_str(),
                symbol_name,
                language,
            );
            proof {
                assert(line_text@ == spec_row_line(lv, c@.sr));
            }
            if !is_def {
                let info = CallerInfo {
                    file: String::from_str(rel_path),
                    line: c.sr + 1,
                    text: crate::text::str_trim(line_text.as_str()),
                };
                let ghost pre = out@;
                out.push(info);
                proof {
                    assert(forall|k: int| 0 <= k < pre.len() ==> out@[k] == pre[k]);
                }
            }
        }
        i += 1;
    }
    proof {
        assert(capsv.take(capsv.len() as int) =~= capsv);
    }
    out
}

/// A line that mentions the name outside its own declaration.
pub open spec fn spec_regex_caller_line(
    line: Seq<char>,
    name: Seq<char>,
    rel_path: Seq<char>,
    definition_file: Seq<char>,
) -> bool {
    spec_contains(line, name) && !(rel_path == definition_file && (spec_contains(line, "fn "@ + name)
        || spec_contains(line, "def "@ + name) || spec_contains(line, "function "@ + name)
        || spec_contains(line, "func "@ + name)))
}

/// Literal-name caller scan for files without a parser profile: one
/// entry per line that holds the name, skipping declaration-shaped lines
/// of the defining file.
/// The zero-based rows, in order, on which the literal scan reports a
/// call: those whose line satisfies the caller-line predicate.
pub open spec fn spec_caller_rows(
    lines: Seq<Seq<char>>,
    name: Seq<char>,
    rel_path: Seq<char>,
    definition_file: Seq<char>,
    n: int,
) -> Seq<int>
    decreases n,
{
    if n <= 0 {
        Seq::empty()
    } else if spec_regex_caller_line(lines[n - 1], name, rel_path, definition_file) {
        spec_caller_rows(lines, name, rel_path, definition_file, n - 1) + seq![n - 1]
    } else {
        spec_caller_rows(lines, name, rel_path, definition_file, n - 1)
    }
}

pub fn find_callers_regex(
    source: &str,
    rel_path: &str,
    symbol_name: &str,
    definition_file: &str,
) -> (r: Vec<CallerInfo>)
    requires
        source@.len() < usize::MAX,
    ensures
        forall|k: int|
            0 <= k < r@.len() ==> {
                let m = #[trigger] r@[k];
                &&& m.file@ == rel_path@
                &&& 1 <= m.line <= spec_lines(source@).len()
                &&& spec_regex_caller_line(
                    spec_lines(source@)[m.line - 1],
                    symbol_name@,
                    rel_path@,
                    definition_file@,
                )
                &&& m.text@ == crate::text::spec_trim(spec_lines(source@)[m.line - 1])
            },
        r@.len() == spec_caller_rows(
            spec_lines(source@),
            symbol_name@,
            rel_path@,
            definition_file@,
            spec_lines(source@).len() as int,
        ).len(),
        forall|k: int|
            0 <= k < r@.len() ==> (#[trigger] r@[k]).line - 1 == spec_caller_rows(
                spec_lines(source@),
                symbol_name@,
                rel_path@,
                definition_file@,
                spec_lines(source@).len() as int,
            )[k],
{
    let lines = str_lines(source);
    let ghost lv = spec_lines(source@);
    proof {
        crate::text::lemma_lines_len(source@);
    }
    let same_file = str_eq(rel_path, definition_file);
    let mut out: Vec<CallerInfo> = Vec::new();
    let mut i: usize = 0;
    while i < lines.len()
        invariant
            lv == spec_lines(source@),
            lines.deep_view() == lv,
            lv.len() == lines@.len(),
            lv.len() < usize::MAX,
            same_file == (rel_path@ == definition_file@),
            i <= lv.len(),
            forall|k: int|
                0 <= k < out@.len() ==> {
                    let m = #[trigger] out@[k];
                    &&& m.file@ == rel_path@
                    &&& 1 <= m.line <= lv.len()
                    &&& spec_regex_caller_line(
                        lv[m.line - 1],
                        symbol_name@,
                        rel_path@,
                        definition_file@,
                    )
                    &&& m.text@ == crate::text::spec_trim(lv[m.line - 1])
                },
            out@.len() == spec_caller_rows(
                lv,
                symbol_name@,
                rel_path@,
                definition_file@,
                i as int,
            ).len(),
            forall|k: int|
                0 <= k < out@.len() ==> (#[trigger] out@[k]).line - 1 == spec_caller_rows(
                    lv,
                    symbol_name@,
                    rel_path@,
                    definition_file@,
                    i as int,
                )[k],
        decreases lv.len() - i,
    {
        proof {
            assert(lines.deep_view()[i as int] == lines@[i as int]@);
        }
        let line = &lines[i];
        if str_contains(line.as_str(), symbol_name) {
            let mut skip = false;
            if same_file {
                let n1 = String::from_str("fn ").concat(symbol_name);
                let n2 = String::from_str("def ").concat(symbol_name);
                let n3 = String::from_str("function ").concat(symbol_name);
                let n4 = String::from_str("func ").concat(symbol_name);
                if str_contains(line.as_str(), n1.as_str()) || str_contains(
                    line.as_str(),
                    n2.as_str(),
                ) || str_contains(line.as_str(), n3.as_str()) || str_contains(
                    line.as_str(),
                    n4.as_str(),
                ) {
                    skip = true;
                }
            }
            if !skip {
                let info = CallerInfo {
                    file: String::from_str(rel_path),
                    line: i + 1,
                    text: crate::text::str_trim(line.as_str()),
                };
                let ghost pre = out@;
                out.push(info);
                proof {
                    assert(forall|k: int| 0 <= k < pre.len() ==> out@[k] == pre[k]);
                    assert(spec_regex_caller_line(
                        lv[i as int],
                        symbol_name@,
                        rel_path@,
                        definition_file@,
                    ));
                    assert(spec_caller_rows(
                        lv,
                        symbol_name@,
                        rel_path@,
                        definition_file@,
                        i + 1,
                    ) == spec_caller_rows(lv, symbol_name@, rel_path@, definition_file@, i as int)
                        + seq![i as int]);
                }
            } else {
                proof {
                    assert(!spec_regex_caller_line(
                        lv[i as int],
                        symbol_name@,
                        rel_path@,
                        definition_file@,
                    ));
                }
            }
        } else {
            proof {
                assert(!crate::text::spec_contains(lv[i as int], symbol_name@));
                assert(!spec_regex_caller_line(
                    lv[i as int],
                    symbol_name@,
                    rel_path@,
                    definition_file@,
                ));
            }
        }
        i += 1;
    }
    out
}

/// One file offered to the caller or test search: path, language and
/// contents.
pub struct OpSource {
    pub path: String,
    pub language: Language,
    pub text: String,
}

/// The one-based line and trimmed text of each call row the parser path
/// reports for one offered file.
pub open spec fn spec_ast_caller_rows(src: OpSource, name: Seq<char>, def_file: Seq<char>) -> Seq<
    (int, Seq<char>),
> {
    let lines = spec_lines(src.text@);
    let caps = crate::parser::ts_query_caps(
        src.language,
        crate::queries::spec_callers_query(src.language),
        src.text@,
        0,
        (vstd::utf8::encode_utf8(src.text@).len() as usize) as int,
    );
    spec_caller_caps_upto(
        caps,
        lines,
        name,
        src.path@,
        def_file,
        src.language,
        caps.len() as int,
    ).map(
        |k: int, c: crate::parser::CaptureView|
            (c.sr + 1, crate::text::spec_trim(spec_row_line(lines, c.sr))),
    )
}

/// The rows the literal scan reports for one offered file.
pub open spec fn spec_regex_caller_rows(
    src: OpSource,
    name: Seq<char>,
    def_file: Seq<char>,
) -> Seq<(int, Seq<char>)> {
    let lines = spec_lines(src.text@);
    spec_caller_rows(lines, name, src.path@, def_file, lines.len() as int).map(
        |k: int, row: int| (row + 1, crate::text::spec_trim(spec_row_line(lines, row))),
    )
}

/// The rows one offered file yields: parser-based where the language's
/// grammar loads, the literal scan otherwise.
pub open spec fn spec_file_caller_rows(
    src: OpSource,
    name: Seq<char>,
    def_file: Seq<char>,
) -> Seq<(int, Seq<char>)> {
    if spec_has_profile(src.language) && crate::parser::grammar_loads(src.language) {
        spec_ast_caller_rows(src, name, def_file)
    } else {
        spec_regex_caller_rows(src, name, def_file)
    }
}

/// Every call row over the first `n` offered files, in file order, each
/// tagged with its file's path.
pub open spec fn spec_all_caller_rows(
    sources: Seq<OpSource>,
    name: Seq<char>,
    def_file: Seq<char>,
    n: int,
) -> Seq<(Seq<char>, int, Seq<char>)>
    decreases n,
{
    if n <= 0 {
        Seq::empty()
    } else {
        spec_all_caller_rows(sources, name, def_file, n - 1) + spec_file_caller_rows(
            sources[n - 1],
            name,
            def_file,
        ).map(|k: int, rt: (int, Seq<char>)| (sources[n - 1].path@, rt.0, rt.1))
    }
}

proof fn lemma_all_caller_rows_prefix(
    sources: Seq<OpSource>,
    name: Seq<char>,
    def_file: Seq<char>,
    n1: int,
    n2: int,
)
    requires
        0 <= n1 <= n2,
    ensures
        spec_all_caller_rows(sources, name, def_file, n1).len() <= spec_all_caller_rows(
            sources,
            name,
            def_file,
            n2,
        ).len(),
        forall|k: int|
            0 <= k < spec_all_caller_rows(sources, name, def_file, n1).len()
                ==> #[trigger] spec_all_caller_rows(sources, name, def_file, n1)[k]
                == spec_all_caller_rows(sources, name, def_file, n2)[k],
    decreases n2 - n1,
{
    if n1 < n2 {
        lemma_all_caller_rows_prefix(sources, name, def_file, n1, n2 - 1);
    }
}

/// A reported call site is anchored in one of the offered files: its
/// `file` is that source's path, and its text is the trimmed content of
/// the row its one-based `line` points at.
pub open spec fn spec_caller_anchored(c: CallerInfo, sources: Seq<OpSource>) -> bool {
    exists|fi: int|
        0 <= fi < sources.len() && c.file@ == (#[trigger] sources[fi]).path@ && c.text@
            == crate::text::spec_trim(spec_row_line(spec_lines(sources[fi].text@), c.line - 1))
}

/// Find call sites of a symbol across the offered files, parser-based
/// where a profile exists and by literal scan otherwise, capped at
/// `limit`. Fails exactly when the symbol is unknown.
pub fn find_callers(
    symbol_table: &SymbolTable,
    sources: &Vec<OpSource>,
    symbol_name: &str,
    file: &str,
    limit: usize,
) -> (r: Result<Vec<CallerInfo>, String>)
    requires
        forall|k: int|
            0 <= k < sources@.len() ==> vstd::utf8::encode_utf8(
                (#[trigger] sources@[k]).text@,
            ).len() < usize::MAX,
    ensures
        r is Ok <==> symbol_table.symbols@.contains_key(spec_key(file@, symbol_name@)),
        match r {
            Ok(callers) => {
                let all = spec_all_caller_rows(sources@, symbol_name@, file@, sources@.len() as int);
                &&& callers@.len() <= limit
                &&& callers@.len() == (if all.len() <= limit {
                    all.len() as int
                } else {
                    limit as int
                })
                &&& forall|k: int|
                    0 <= k < callers@.len() ==> (#[trigger] callers@[k]).file@ == all[k].0
                        && callers@[k].line == all[k].1 && callers@[k].text@ == all[k].2
                &&& forall|k: int|
                    0 <= k < callers@.len() ==> spec_caller_anchored(
                        #[trigger] callers@[k],
                        sources@,
                    )
            },
            Err(_) => true,
        },
{
    if symbol_table.get(file, symbol_name).is_none() {
        let mut msg = String::from_str("Symbol '");
        msg.append(symbol_name);
        msg.append("' not found in '");
        msg.append(file);
        msg.append("'");
        return Err(msg);
    }
    proof {
        assert(symbol_table.symbols@.contains_key(spec_key(file@, symbol_name@)));
    }
    let mut callers: Vec<CallerInfo> = Vec::new();
    let mut fi: usize = 0;
    while fi < sources.len()
        invariant
            symbol_table.symbols@.contains_key(spec_key(file@, symbol_name@)),
            fi <= sources@.len(),
            forall|k: int|
                0 <= k < sources@.len() ==> vstd::utf8::encode_utf8(
                    (#[trigger] sources@[k]).text@,
                ).len() < usize::MAX,
            callers@.len() <= limit,
            callers@.len() == (if spec_all_caller_rows(
                sources@,
                symbol_name@,
                file@,
                fi as int,
            ).len() <= limit {
                spec_all_caller_rows(sources@, symbol_name@, file@, fi as int).len() as int
            } else {
                limit as int
            }),
            forall|k: int|
                0 <= k < callers@.len() ==> (#[trigger] callers@[k]).file@
                    == spec_all_caller_rows(sources@, symbol_name@, file@, fi as int)[k].0
                    && callers@[k].line == spec_all_caller_rows(
                    sources@,
                    symbol_name@,
                    file@,
                    fi as int,
                )[k].1 && callers@[k].text@ == spec_all_caller_rows(
                    sources@,
                    symbol_name@,
                    file@,
                    fi as int,
                )[k].2,
            forall|k: int|
                0 <= k < callers@.len() ==> spec_caller_anchored(
                    #[trigger] callers@[k],
                    sources@,
                ),
        decreases sources@.len() - fi,
    {
        let src = &sources[fi];
        let ghost prev_all = spec_all_caller_rows(sources@, symbol_name@, file@, fi as int);
        let ghost frows = spec_file_caller_rows(sources@[fi as int], symbol_name@, file@);
        let file_callers = if crate::parser::grammar_ready(&src.language) {
            let r = find_callers_ast(
                src.text.as_str(),
                src.path.as_str(),
                src.language,
                symbol_name,
                file,
            );
            proof {
                let lines = spec_lines(sources@[fi as int].text@);
                let caps = crate::parser::ts_query_caps(
                    sources@[fi as int].language,
                    crate::queries::spec_callers_query(sources@[fi as int].language),
                    sources@[fi as int].text@,
                    0,
                    (vstd::utf8::encode_utf8(sources@[fi as int].text@).len() as usize) as int,
                );
                let picked = spec_caller_caps_upto(
                    caps,
                    lines,
                    symbol_name@,
                    sources@[fi as int].path@,
                    file@,
                    sources@[fi as int].language,
                    caps.len() as int,
                );
                assert(frows == spec_ast_caller_rows(sources@[fi as int], symbol_name@, file@));
                assert(r@.len() == picked.len());
                assert(frows.len() == picked.len());
                assert forall|k: int| 0 <= k < r@.len() implies (#[trigger] r@[k]).file@
                    == sources@[fi as int].path@ && r@[k].line == frows[k].0 && r@[k].text@
                    == frows[k].1 by {
                    assert(frows[k] == (
                        picked[k].sr + 1,
                        crate::text::spec_trim(spec_row_line(lines, picked[k].sr)),
                    ));
                }
            }
            r
        } else {
            proof {
                crate::text::lemma_chars_le_bytes(sources@[fi as int].text@);
            }
            let r = find_callers_regex(src.text.as_str(), src.path.as_str(), symbol_name, file);
            proof {
                let lines = spec_lines(sources@[fi as int].text@);
                let rows = spec_caller_rows(
                    lines,
                    symbol_name@,
                    sources@[fi as int].path@,
                    file@,
                    lines.len() as int,
                );
                assert(frows == spec_regex_caller_rows(sources@[fi as int], symbol_name@, file@));
                assert(r@.len() == rows.len());
                assert(frows.len() == rows.len());
                assert forall|k: int| 0 <= k < r@.len() implies (#[trigger] r@[k]).file@
                    == sources@[fi as int].path@ && r@[k].line == frows[k].0 && r@[k].text@
                    == frows[k].1 by {
                    assert(frows[k] == (
                        rows[k] + 1,
                        crate::text::spec_trim(spec_row_line(lines, rows[k])),
                    ));
                    assert(r@[k].line - 1 == rows[k]);
                    assert(1 <= r@[k].line <= lines.len());
                    assert(spec_row_line(lines, rows[k]) == lines[rows[k]]);
                }
            }
            r
        };
        proof {
            assert(spec_all_caller_rows(sources@, symbol_name@, file@, fi + 1) == prev_all
                + frows.map(
                |k: int, rt: (int, Seq<char>)| (sources@[fi as int].path@, rt.0, rt.1),
            ));
        }
        let mut j: usize = 0;
        while j < file_callers.len()
            invariant
                symbol_table.symbols@.contains_key(spec_key(file@, symbol_name@)),
                fi < sources@.len(),
                j <= file_callers@.len(),
                callers@.len() <= limit,
                prev_all == spec_all_caller_rows(sources@, symbol_name@, file@, fi as int),
                frows == spec_file_caller_rows(sources@[fi as int], symbol_name@, file@),
                file_callers@.len() == frows.len(),
                forall|k: int|
                    0 <= k < file_callers@.len() ==> (#[trigger] file_callers@[k]).file@
                        == sources@[fi as int].path@ && file_callers@[k].line == frows[k].0
                        && file_callers@[k].text@ == frows[k].1,
                spec_all_caller_rows(sources@, symbol_name@, file@, fi + 1) == prev_all
                    + frows.map(
                    |k: int, rt: (int, Seq<char>)| (sources@[fi as int].path@, rt.0, rt.1),
                ),
                callers@.len() == (if prev_all.len() + j <= limit {
                    prev_all.len() + j
                } else {
                    limit as int
                }),
                forall|k: int|
                    0 <= k < callers@.len() ==> (#[trigger] callers@[k]).file@
                        == spec_all_caller_rows(sources@, symbol_name@, file@, fi + 1)[k].0
                        && callers@[k].line == spec_all_caller_rows(
                        sources@,
                        symbol_name@,
                        file@,
                        fi + 1,
                    )[k].1 && callers@[k].text@ == spec_all_caller_rows(
                        sources@,
                        symbol_name@,
                        file@,
                        fi + 1,
                    )[k].2,
                forall|k: int|
                    0 <= k < callers@.len() ==> spec_caller_anchored(
                        #[trigger] callers@[k],
                        sources@,
                    ),
            decreases file_callers@.len() - j,
        {
            if callers.len() >= limit {
                proof {
                    lemma_all_caller_rows_prefix(
                        sources@,
                        symbol_name@,
                        file@,
                        fi + 1,
                        sources@.len() as int,
                    );
                }
                return Ok(callers);
            }
            callers.push(file_callers[j].duplicate_info());
            proof {
                let c = callers@[callers@.len() - 1];
                assert(c == file_callers@[j as int]);
                let all1 = spec_all_caller_rows(sources@, symbol_name@, file@, fi + 1);
                assert(all1[prev_all.len() + j] == (
                    sources@[fi as int].path@,
                    frows[j as int].0,
                    frows[j as int].1,
                ));
                assert(c.file@ == all1[prev_all.len() + j].0 && c.line == all1[prev_all.len()
                    + j].1 && c.text@ == all1[prev_all.len() + j].2);
                assert(0 <= fi < sources@.len() && c.file@ == sources@[fi as int].path@ && c.text@
                    == crate::text::spec_trim(
                    spec_row_line(spec_lines(sources@[fi as int].text@), c.line - 1),
                )) by {
                    if spec_has_profile(sources@[fi as int].language)
                        && crate::parser::grammar_loads(sources@[fi as int].language) {
                        assert(frows == spec_ast_caller_rows(
                            sources@[fi as int],
                            symbol_name@,
                            file@,
                        ));
                    } else {
                        assert(frows == spec_regex_caller_rows(
                            sources@[fi as int],
                            symbol_name@,
                            file@,
                        ));
                    }
                }
                assert(spec_caller_anchored(c, sources@));
            }
            j += 1;
        }
        proof {
            if callers@.len() == limit && prev_all.len() + file_callers@.len() > limit {
                assert(callers@.len() == (if spec_all_caller_rows(
                    sources@,
                    symbol_name@,
                    file@,
                    fi + 1,
                ).len() <= limit {
                    spec_all_caller_rows(sources@, symbol_name@, file@, fi + 1).len() as int
                } else {
                    limit as int
                }));
            }
        }
        fi += 1;
    }
    Ok(callers)
}

impl CallerInfo {
    /// An equal copy.
    pub fn duplicate_info(&self) -> (r: Self)
        ensures
            r == *self,
    {
        CallerInfo { file: self.file.clone(), line: self.line, text: self.text.clone() }
    }
}

pub struct TestInfo {
    pub name: String,
    pub file: String,
    pub line: usize,
    pub signature: String,
}

/// The body slice a symbol's byte range selects, with the range clamped
/// to the text and ordered.
pub open spec fn spec_clamped_body(bytes: Seq<u8>, range: (usize, usize)) -> Seq<u8> {
    let start = if range.0 <= bytes.len() {
        range.0 as int
    } else {
        bytes.len() as int
    };
    let end0 = if range.1 <= bytes.len() {
        range.1 as int
    } else {
        bytes.len() as int
    };
    let end = if start <= end0 {
        end0
    } else {
        start
    };
    bytes.subrange(start, end)
}

/// The first offered source for the symbol's file exists and the
/// symbol's clamped body there contains the searched name's bytes.
pub open spec fn spec_test_hit(sym: Symbol, sources: Seq<OpSource>, name: Seq<char>) -> bool {
    exists|f: int|
        0 <= f < sources.len() && (#[trigger] sources[f]).path@ == sym.file@ && (forall|g: int|
            0 <= g < f ==> sources[g].path@ != sym.file@) && spec_bytes_contain(
            spec_clamped_body(vstd::utf8::encode_utf8(sources[f].text@), sym.byte_range),
            vstd::utf8::encode_utf8(name),
        )
}

/// Some reported test row carries this symbol's name, file, line and
/// signature.
pub open spec fn spec_test_listed(tests: Seq<TestInfo>, sym: Symbol) -> bool {
    exists|k: int|
        0 <= k < tests.len() && (#[trigger] tests[k]).name@ == sym.name@ && tests[k].file@
            == sym.file@ && tests[k].line == sym.line_range.0 && tests[k].signature@
            == sym.signature@
}

/// The reported test row carries the name, file, start line and
/// signature of a test symbol of the table whose body, in the first
/// offered source for its file, contains the searched name.
pub open spec fn spec_test_entry_sound(
    t: TestInfo,
    entries: Seq<(String, Symbol)>,
    sources: Seq<OpSource>,
    name: Seq<char>,
) -> bool {
    exists|j: int|
        0 <= j < entries.len() && spec_is_test_symbol((#[trigger] entries[j]).1) && t.name@
            == entries[j].1.name@ && t.file@ == entries[j].1.file@ && t.line == entries[
            j].1.line_range.0 && t.signature@ == entries[j].1.signature@ && spec_test_hit(
            entries[j].1,
            sources,
            name,
        )
}

/// Whether a symbol is a test by the language's naming conventions.
pub open spec fn spec_is_test_symbol(s: Symbol) -> bool {
    match s.language {
        Language::Rust => spec_starts_with(s.name@, "test"@) || spec_contains(s.file@, "/tests/"@),
        Language::Python => spec_starts_with(s.name@, "test_"@) || spec_contains(s.file@, "test_"@)
            || spec_contains(s.file@, "_test."@),
        Language::TypeScript => spec_contains(s.file@, ".test."@) || spec_contains(
            s.file@,
            ".spec."@,
        ) || spec_contains(s.file@, "__tests__"@),
        Language::JavaScript => spec_contains(s.file@, ".test."@) || spec_contains(
            s.file@,
            ".spec."@,
        ) || spec_contains(s.file@, "__tests__"@),
        Language::Go => spec_starts_with(s.name@, "Test"@) || spec_ends_with(s.file@, "_test.go"@),
        _ => false,
    }
}

/// Classify a symbol as a test, by name prefix or file naming.
pub fn is_test_symbol(sym: &Symbol) -> (r: bool)
    ensures
        r == spec_is_test_symbol(*sym),
{
    match sym.language {
        Language::Rust => str_starts_with(sym.name.as_str(), "test") || str_contains(
            sym.file.as_str(),
            "/tests/",
        ),
        Language::Python => str_starts_with(sym.name.as_str(), "test_") || str_contains(
            sym.file.as_str(),
            "test_",
        ) || str_contains(sym.file.as_str(), "_test."),
        Language::TypeScript | Language::JavaScript => str_contains(sym.file.as_str(), ".test.")
            || str_contains(sym.file.as_str(), ".spec.") || str_contains(
            sym.file.as_str(),
            "__tests__",
        ),
        Language::Go => str_starts_with(sym.name.as_str(), "Test") || str_ends_with(
            sym.file.as_str(),
            "_test.go",
        ),
        _ => false,
    }
}

/// `sub` occurs as a byte subsequence of `s`.
pub open spec fn spec_bytes_contain(s: Seq<u8>, sub: Seq<u8>) -> bool {
    exists|i: int|
        0 <= i && i + sub.len() <= s.len() && (#[trigger] s.subrange(i, i + sub.len() as int))
            == sub
}

fn bytes_contain(s: &[u8], sub: &[u8]) -> (r: bool)
    ensures
        r == spec_bytes_contain(s@, sub@),
{
    let n = s.len();
    let m = sub.len();
    if m > n {
        proof {
            if spec_bytes_contain(s@, sub@) {
                let i0 = choose|i0: int|
                    0 <= i0 && i0 + sub@.len() <= s@.len() && (#[trigger] s@.subrange(
                        i0,
                        i0 + sub@.len() as int,
                    )) == sub@;
                assert(false);
            }
        }
        return false;
    }
    if m == 0 {
        proof {
            assert(s@.subrange(0, 0 + sub@.len() as int) =~= sub@);
            assert(spec_bytes_contain(s@, sub@));
        }
        return true;
    }
    let mut i: usize = 0;
    while i <= n - m
        invariant
            0 < m <= n,
            n == s@.len(),
            m == sub@.len(),
            i <= n - m + 1,
            forall|k: int|
                0 <= k < i ==> !(k + sub@.len() <= s@.len() && (#[trigger] s@.subrange(
                    k,
                    k + sub@.len() as int,
                )) == sub@),
        decreases n - m - i + 1,
    {
        let mut j: usize = 0;
        while j < m && s[i + j] == sub[j]
            invariant
                0 < m <= n,
                i + m <= n,
                n == s@.len(),
                m == sub@.len(),
                j <= m,
                forall|k: int| 0 <= k < j ==> s@[i + k] == sub@[k],
            decreases m - j,
        {
            j += 1;
        }
        if j == m {
            proof {
                assert(s@.subrange(i as int, i + sub@.len() as int) =~= sub@);
                assert(spec_bytes_contain(s@, sub@));
            }
            return true;
        }
        proof {
            assert(s@[i + j as int] != sub@[j as int]);
            if i + sub@.len() <= s@.len() && s@.subrange(i as int, i + sub@.len()) == sub@ {
                assert(s@.subrange(i as int, i + sub@.len())[j as int] == sub@[j as int]);
            }
        }
        i += 1;
    }
    proof {
        if spec_bytes_contain(s@, sub@) {
            let i0 = choose|i0: int|
                0 <= i0 && i0 + sub@.len() <= s@.len() && (#[trigger] s@.subrange(
                    i0,
                    i0 + sub@.len() as int,
                )) == sub@;
            assert(false);
        }
    }
    false
}

/// Find test symbols whose body mentions the target symbol literally,
/// capped at `limit`. Test bodies are read from the offered file
/// contents. Fails exactly when the target symbol is unknown.
#[verifier::loop_isolation(false)]
pub fn find_tests(
    symbol_table: &SymbolTable,
    sources: &Vec<OpSource>,
    symbol_name: &str,
    file: &str,
    limit: usize,
) -> (r: Result<Vec<TestInfo>, String>)
    ensures
        r is Ok <==> symbol_table.symbols@.contains_key(spec_key(file@, symbol_name@)),
        match r {
            Ok(tests) => tests@.len() <= limit && (forall|k: int|
                0 <= k < tests@.len() ==> spec_test_entry_sound(
                    #[trigger] tests@[k],
                    symbol_table.symbols.entries@,
                    sources@,
                    symbol_name@,
                )) && (forall|j: int|
                0 <= j < symbol_table.symbols.entries@.len() && spec_is_test_symbol(
                    (#[trigger] symbol_table.symbols.entries@[j]).1,
                ) && spec_test_hit(symbol_table.symbols.entries@[j].1, sources@, symbol_name@)
                    ==> spec_test_listed(tests@, symbol_table.symbols.entries@[j].1) || tests@.len()
                    == limit),
            Err(_) => true,
        },
{
    if symbol_table.get(file, symbol_name).is_none() {
        let mut msg = String::from_str("Symbol '");
        msg.append(symbol_name);
        msg.append("' not found in '");
        msg.append(file);
        msg.append("'");
        return Err(msg);
    }
    proof {
        assert(symbol_table.symbols@.contains_key(spec_key(file@, symbol_name@)));
    }
    let mut tests: Vec<TestInfo> = Vec::new();
    let mut i: usize = 0;
    while i < symbol_table.symbols.entries.len()
        invariant
            symbol_table.symbols@.contains_key(spec_key(file@, symbol_name@)),
            tests@.len() <= limit,
            i <= symbol_table.symbols.entries@.len(),
            forall|k: int|
                0 <= k < tests@.len() ==> spec_test_entry_sound(
                    #[trigger] tests@[k],
                    symbol_table.symbols.entries@,
                    sources@,
                    symbol_name@,
                ),
            forall|j: int|
                0 <= j < i && spec_is_test_symbol(
                    (#[trigger] symbol_table.symbols.entries@[j]).1,
                ) && spec_test_hit(symbol_table.symbols.entries@[j].1, sources@, symbol_name@)
                    ==> spec_test_listed(tests@, symbol_table.symbols.entries@[j].1) || tests@.len()
                    == limit,
        decreases symbol_table.symbols.entries@.len() - i,
    {
        let ghost pre_entry = tests@;
        let sym = &symbol_table.symbols.entries[i].1;
        if is_test_symbol(sym) {
            // find this symbol's file among the offered sources
            let mut si: usize = 0;
            let mut found: Option<usize> = None;
            while si < sources.len()
                invariant
                    si <= sources@.len(),
                    match found {
                        Some(f) => si == sources@.len() && f < sources@.len()
                            && sources@[f as int].path@ == sym.file@ && forall|g: int|
                            0 <= g < f ==> sources@[g].path@ != sym.file@,
                        None => forall|g: int| 0 <= g < si ==> sources@[g].path@ != sym.file@,
                    },
                decreases sources@.len() - si,
            {
                if str_eq(sources[si].path.as_str(), sym.file.as_str()) {
                    found = Some(si);
                    si = sources.len();
                } else {
                    si += 1;
                }
            }
            match found {
                Some(f) => {
                    let body_src = sources[f].text.as_str();
                    let bytes = body_src.as_bytes();
                    let blen = bytes.len();
                    let start = if sym.byte_range.0 <= blen {
                        sym.byte_range.0
                    } else {
                        blen
                    };
                    let end = if sym.byte_range.1 <= blen {
                        sym.byte_range.1
                    } else {
                        blen
                    };
                    let end = if start <= end {
                        end
                    } else {
                        start
                    };
                    let body = vstd::slice::slice_subrange(bytes, start, end);
                    proof {
                        assert(bytes@ == vstd::utf8::encode_utf8(sources@[f as int].text@));
                        assert(body@ == spec_clamped_body(bytes@, sym.byte_range));
                    }
                    let contained = bytes_contain(body, symbol_name.as_bytes());
                    if contained {
                        if tests.len() < limit {
                            let info = TestInfo {
                                name: sym.name.clone(),
                                file: sym.file.clone(),
                                line: sym.line_range.0,
                                signature: sym.signature.clone(),
                            };
                            let ghost pre = tests@;
                            proof {
                                let sym0 = symbol_table.symbols.entries@[i as int].1;
                                assert(spec_is_test_symbol(sym0));
                                assert(info.name@ == sym0.name@);
                                assert(info.file@ == sym0.file@);
                                assert(info.line == sym0.line_range.0);
                                assert(info.signature@ == sym0.signature@);
                                assert(0 <= f < sources@.len() && sources@[f as int].path@
                                    == sym0.file@ && (forall|g: int|
                                    0 <= g < f ==> sources@[g].path@ != sym0.file@)
                                    && spec_bytes_contain(
                                    spec_clamped_body(
                                        vstd::utf8::encode_utf8(sources@[f as int].text@),
                                        sym0.byte_range,
                                    ),
                                    vstd::utf8::encode_utf8(symbol_name@),
                                ));
                                assert(spec_test_hit(sym0, sources@, symbol_name@));
                                assert(spec_test_entry_sound(
                                    info,
                                    symbol_table.symbols.entries@,
                                    sources@,
                                    symbol_name@,
                                ));
                            }
                            tests.push(info);
                            proof {
                                assert(forall|k: int|
                                    0 <= k < pre.len() ==> tests@[k] == pre[k]);
                                assert(tests@[pre.len() as int] == info);
                                assert(spec_test_listed(
                                    tests@,
                                    symbol_table.symbols.entries@[i as int].1,
                                ));
                                assert forall|j: int|
                                    0 <= j < i && spec_is_test_symbol(
                                        (#[trigger] symbol_table.symbols.entries@[j]).1,
                                    ) && spec_test_hit(
                                        symbol_table.symbols.entries@[j].1,
                                        sources@,
                                        symbol_name@,
                                    ) implies spec_test_listed(
                                    tests@,
                                    symbol_table.symbols.entries@[j].1,
                                ) || tests@.len() == limit by {
                                    if spec_test_listed(
                                        pre,
                                        symbol_table.symbols.entries@[j].1,
                                    ) {
                                        let k = choose|k: int|
                                            0 <= k < pre.len() && (#[trigger] pre[k]).name@
                                                == symbol_table.symbols.entries@[j].1.name@
                                                && pre[k].file@ == symbol_table.symbols.entries@[
                                                j].1.file@ && pre[k].line
                                                == symbol_table.symbols.entries@[j].1.line_range.0
                                                && pre[k].signature@
                                                == symbol_table.symbols.entries@[j].1.signature@;
                                        assert(tests@[k] == pre[k]);
                                        assert(spec_test_listed(
                                            tests@,
                                            symbol_table.symbols.entries@[j].1,
                                        ));
                                    }
                                }
                            }
                        } else {
                            proof {
                                assert(tests@.len() == limit);
                            }
                        }
                    } else {
                        proof {
                            let sym0 = symbol_table.symbols.entries@[i as int].1;
                            if spec_test_hit(sym0, sources@, symbol_name@) {
                                let f2 = choose|f2: int|
                                    0 <= f2 < sources@.len() && (#[trigger] sources@[f2]).path@
                                        == sym0.file@ && (forall|g: int|
                                        0 <= g < f2 ==> sources@[g].path@ != sym0.file@)
                                        && spec_bytes_contain(
                                        spec_clamped_body(
                                            vstd::utf8::encode_utf8(sources@[f2].text@),
                                            sym0.byte_range,
                                        ),
                                        vstd::utf8::encode_utf8(symbol_name@),
                                    );
                                if f2 < f as int {
                                    assert(sources@[f2].path@ != sym0.file@);
                                } else if (f as int) < f2 {
                                    assert(sources@[f as int].path@ != sym0.file@);
                                }
                                assert(f2 == f as int);
                                assert(false);
                            }
                        }
                    }
                },
                None => {
                    proof {
                        let sym0 = symbol_table.symbols.entries@[i as int].1;
                        if spec_test_hit(sym0, sources@, symbol_name@) {
                            let f2 = choose|f2: int|
                                0 <= f2 < sources@.len() && (#[trigger] sources@[f2]).path@
                                    == sym0.file@;
                            assert(false);
                        }
                    }
                },
            }
        }
        i += 1;
    }
    Ok(tests)
}

pub struct VariableInfo {
    pub name: String,
    pub function: String,
}

/// A capture text that names a usable variable: nonempty and neither
/// `self` nor `_`.
pub open spec fn spec_var_usable(t: Seq<char>) -> bool {
    t.len() > 0 && t != "self"@ && t != "_"@
}

/// The variable names among the captures from position `i` on: the text
/// of each `var.name` capture, usable and not seen before, in first
/// occurrence order.
pub open spec fn spec_var_names(
    caps: Seq<crate::parser::CaptureView>,
    i: int,
    seen: Set<Seq<char>>,
) -> Seq<Seq<char>>
    decreases caps.len() - i,
{
    if i < 0 || i >= caps.len() {
        Seq::empty()
    } else {
        let c = caps[i];
        if c.name == "var.name"@ && spec_var_usable(c.text) && !seen.contains(c.text) {
            seq![c.text] + spec_var_names(caps, i + 1, seen.insert(c.text))
        } else {
            spec_var_names(caps, i + 1, seen)
        }
    }
}

/// Parser-based variable enumeration: exactly the usable, de-duplicated
/// `var.name` captures inside the function's byte window, in first
/// occurrence order.
#[verifier::loop_isolation(false)]
pub fn list_variables_ast(
    source: &str,
    language: Language,
    fn_start: usize,
    fn_end: usize,
    function_name: &str,
) -> (r: Vec<VariableInfo>)
    ensures
        spec_has_profile(language) && crate::parser::grammar_loads(language) ==> ({
            let names = spec_var_names(
                crate::parser::ts_query_caps(
                    language,
                    crate::queries::spec_variables_query(language),
                    source@,
                    fn_start as int,
                    fn_end as int,
                ),
                0,
                Set::empty(),
            );
            r@.len() == names.len() && forall|k: int|
                0 <= k < r@.len() ==> (#[trigger] r@[k]).name@ == names[k] && r@[k].function@
                    == function_name@
        }),
        !(spec_has_profile(language) && crate::parser::grammar_loads(language)) ==> r@.len() == 0,
        forall|a: int, b: int|
            0 <= a < b < r@.len() ==> (#[trigger] r@[a]).name@ != (#[trigger] r@[b]).name@,
        forall|k: int| 0 <= k < r@.len() ==> (#[trigger] r@[k]).function@ == function_name@,
        forall|k: int| 0 <= k < r@.len() ==> spec_var_usable((#[trigger] r@[k]).name@),
{
    let mut out: Vec<VariableInfo> = Vec::new();
    let cfg = match get_language_config(language) {
        Some(c) => c,
        None => {
            return out;
        },
    };
    let tree = match ts_parse(&cfg.language, &language, source) {
        Some(t) => t,
        None => {
            return out;
        },
    };
    let caps = ts_query_run(
        &cfg.language,
        &language,
        &tree,
        cfg.variables_query,
        source,
        fn_start,
        fn_end,
    );
    let ghost capsv = caps.deep_view();
    let mut seen: KeySet = crate::strmap::StrMap::new();
    let mut i: usize = 0;
    proof {
        assert(seen@.dom() =~= Set::<Seq<char>>::empty());
    }
    while i < caps.len()
        invariant
            capsv == caps.deep_view(),
            capsv.len() == caps@.len(),
            seen.wf(),
            i <= capsv.len(),
            spec_var_names(capsv, 0, Set::empty()) == out@.map_values(
                |v: VariableInfo| v.name@,
            ) + spec_var_names(capsv, i as int, seen@.dom()),
            forall|a: int, b: int|
                0 <= a < b < out@.len() ==> (#[trigger] out@[a]).name@ != (#[trigger] out@[b]).name@,
            forall|k: int| 0 <= k < out@.len() ==> (#[trigger] out@[k]).function@ == function_name@,
            forall|k: int| 0 <= k < out@.len() ==> seen@.contains_key((#[trigger] out@[k]).name@),
            forall|k: int| 0 <= k < out@.len() ==> spec_var_usable((#[trigger] out@[k]).name@),
        decreases capsv.len() - i,
    {
        let c = &caps[i];
        proof {
            assert(capsv[i as int] == caps@[i as int].deep_view());
        }
        if str_eq(c.name.as_str(), "var.name") && c.text.as_str().unicode_len() > 0 && !str_eq(
            c.text.as_str(),
            "self",
        ) && !str_eq(c.text.as_str(), "_") {
            if !seen.contains_key(c.text.as_str()) {
                let ghost pre = out@;
                out.push(
                    VariableInfo {
                        name: c.text.clone(),
                        function: String::from_str(function_name),
                    },
                );
                seen.add(c.text.clone());
                proof {
                    assert(forall|k: int| 0 <= k < pre.len() ==> out@[k] == pre[k]);
                    assert(spec_var_usable(out@[pre.len() as int].name@));
                    assert(out@.map_values(|v: VariableInfo| v.name@) =~= pre.map_values(
                        |v: VariableInfo| v.name@,
                    ).push(capsv[i as int].text));
                    assert(spec_var_names(capsv, i as int, pre.map_values(
                        |v: VariableInfo| v.name@,
                    ).to_set().union(Set::empty()))
                        == spec_var_names(capsv, i as int, pre.map_values(
                        |v: VariableInfo| v.name@,
                    ).to_set().union(Set::empty())));
                }
            } else {
                proof {
                    assert(seen@.dom().contains(capsv[i as int].text));
                }
            }
        }
        i += 1;
    }
    proof {
        assert(spec_var_names(capsv, capsv.len() as int, seen@.dom()) =~= Seq::<Seq<char>>::empty());
        assert(out@.map_values(|v: VariableInfo| v.name@) + Seq::<Seq<char>>::empty() =~= out@
            .map_values(|v: VariableInfo| v.name@));
        assert forall|k: int| 0 <= k < out@.len() implies (#[trigger] out@[k]).name@
            == spec_var_names(capsv, 0, Set::empty())[k] by {
            assert(out@.map_values(|v: VariableInfo| v.name@)[k] == out@[k].name@);
        }
    }
    out
}

/// Relies on regex::Regex::captures_iter: the named group's text for
/// each successive non-overlapping match, deterministic in pattern, text
/// and group.
#[verifier::external_body]
fn re_capture_texts(pat: &str, text: &str, group: usize) -> (r: Vec<String>)
    ensures
        r.deep_view() == regex_group_texts(pat@, text@, group as int),
{
    let Ok(re) = regex::Regex::new(pat) else { return vec![] };
    re.captures_iter(text).filter_map(|c| c.get(group).map(|m| m.as_str().to_string())).collect()
}

/// The successive texts of one capture group of a pattern over a text.
pub uninterp spec fn regex_group_texts(pat: Seq<char>, text: Seq<char>, group: int) -> Seq<
    Seq<char>,
>;

/// Regex fallback for variable enumeration: the language's variable
/// patterns applied to the function body slice, filtered to usable names
/// and de-duplicated. Every reported name is a captured name of one of
/// the language's patterns; names are pairwise distinct and never `self`
/// or `_`.
#[verifier::loop_isolation(false)]
pub fn list_variables_regex(body: &str, language: Language, function_name: &str) -> (r: Vec<
    VariableInfo,
>)
    ensures
        forall|a: int, b: int|
            0 <= a < b < r@.len() ==> (#[trigger] r@[a]).name@ != (#[trigger] r@[b]).name@,
        forall|k: int|
            0 <= k < r@.len() ==> (#[trigger] r@[k]).function@ == function_name@ && spec_var_usable(
                r@[k].name@,
            ),
        forall|k: int|
            0 <= k < r@.len() ==> spec_var_captured((#[trigger] r@[k]).name@, language, body@),
        r@.map_values(|v: VariableInfo| v.name@) == spec_regex_var_names(
            spec_var_texts(language, body@),
            0,
            Set::empty(),
        ),
{
    let mut texts: Vec<String> = Vec::new();
    match language {
        Language::Rust => {
            collect_group(&mut texts, body, "let\\s+(mut\\s+)?(\\w+)", 2);
            proof {
                assert forall|k: int| #![trigger texts@[k]]
                    0 <= k < texts@.len() implies spec_var_captured(
                    texts@[k]@,
                    language,
                    body@,
                ) by {
                    assert(regex_group_texts(
                        spec_var_pattern(language, 0),
                        body@,
                        spec_var_group(language, 0),
                    ).contains(texts@[k]@));
                }
                assert(spec_texts_sound(texts@, language, body@));
                assert(texts.deep_view() =~= spec_var_texts(language, body@));
            }
        },
        Language::Python => {
            collect_group(&mut texts, body, "^\\s+(\\w+)\\s*=", 1);
            proof {
                assert forall|k: int| #![trigger texts@[k]]
                    0 <= k < texts@.len() implies spec_var_captured(
                    texts@[k]@,
                    language,
                    body@,
                ) by {
                    assert(regex_group_texts(
                        spec_var_pattern(language, 0),
                        body@,
                        spec_var_group(language, 0),
                    ).contains(texts@[k]@));
                }
                assert(spec_texts_sound(texts@, language, body@));
                assert(texts.deep_view() =~= spec_var_texts(language, body@));
            }
        },
        Language::TypeScript | Language::JavaScript => {
            collect_group(&mut texts, body, "(?:let|const|var)\\s+(\\w+)", 1);
            proof {
                assert forall|k: int| #![trigger texts@[k]]
                    0 <= k < texts@.len() implies spec_var_captured(
                    texts@[k]@,
                    language,
                    body@,
                ) by {
                    assert(regex_group_texts(
                        spec_var_pattern(language, 0),
                        body@,
                        spec_var_group(language, 0),
                    ).contains(texts@[k]@));
                }
                assert(spec_texts_sound(texts@, language, body@));
                assert(texts.deep_view() =~= spec_var_texts(language, body@));
            }
        },
        Language::Go => {
            collect_group(&mut texts, body, "(\\w+)\\s*:=", 1);
            let ghost first = texts@.len() as int;
            collect_group(&mut texts, body, "var\\s+(\\w+)", 1);
            proof {
                assert forall|k: int| #![trigger texts@[k]]
                    0 <= k < texts@.len() implies spec_var_captured(
                    texts@[k]@,
                    language,
                    body@,
                ) by {
                    if k < first {
                        assert(regex_group_texts(
                            spec_var_pattern(language, 0),
                            body@,
                            spec_var_group(language, 0),
                        ).contains(texts@[k]@));
                    } else {
                        assert(regex_group_texts(
                            spec_var_pattern(language, 1),
                            body@,
                            spec_var_group(language, 1),
                        ).contains(texts@[k]@));
                    }
                }
                assert(spec_texts_sound(texts@, language, body@));
                assert(texts.deep_view() =~= spec_var_texts(language, body@));
            }
        },
        _ => {
            proof {
                assert(spec_texts_sound(texts@, language, body@));
                assert(texts.deep_view() =~= spec_var_texts(language, body@));
            }
        },
    }
    let ghost tv = texts.deep_view();
    let mut out: Vec<VariableInfo> = Vec::new();
    let mut seen: KeySet = crate::strmap::StrMap::new();
    proof {
        assert(seen@.dom() =~= Set::<Seq<char>>::empty());
        assert(out@.map_values(|v: VariableInfo| v.name@) =~= Seq::<Seq<char>>::empty());
    }
    let mut i: usize = 0;
    while i < texts.len()
        invariant
            seen.wf(),
            i <= texts@.len(),
            tv == texts.deep_view(),
            tv.len() == texts@.len(),
            spec_texts_sound(texts@, language, body@),
            spec_regex_var_names(tv, 0, Set::empty()) == out@.map_values(
                |v: VariableInfo| v.name@,
            ) + spec_regex_var_names(tv, i as int, seen@.dom()),
            forall|a: int, b: int|
                0 <= a < b < out@.len() ==> (#[trigger] out@[a]).name@ != (#[trigger] out@[b]).name@,
            forall|k: int|
                0 <= k < out@.len() ==> (#[trigger] out@[k]).function@ == function_name@
                    && spec_var_usable(out@[k].name@),
            forall|k: int|
                0 <= k < out@.len() ==> spec_var_captured(
                    (#[trigger] out@[k]).name@,
                    language,
                    body@,
                ),
            forall|k: int| 0 <= k < out@.len() ==> seen@.contains_key((#[trigger] out@[k]).name@),
        decreases texts@.len() - i,
    {
        let t = &texts[i];
        proof {
            assert(tv[i as int] == texts@[i as int]@);
        }
        if t.as_str().unicode_len() > 0 && !str_eq(t.as_str(), "self") && !str_eq(t.as_str(), "_")
        {
            if !seen.contains_key(t.as_str()) {
                let ghost pre = out@;
                let ghost predom = seen@.dom();
                proof {
                    assert(spec_var_usable(tv[i as int]) && !predom.contains(tv[i as int]));
                }
                out.push(
                    VariableInfo {
                        name: t.clone(),
                        function: String::from_str(function_name),
                    },
                );
                seen.add(t.clone());
                proof {
                    assert(forall|k: int| 0 <= k < pre.len() ==> out@[k] == pre[k]);
                    assert(out@[pre.len() as int].name@ == texts@[i as int]@);
                    assert(seen@.dom() =~= predom.insert(tv[i as int]));
                    assert(out@.map_values(|v: VariableInfo| v.name@) =~= pre.map_values(
                        |v: VariableInfo| v.name@,
                    ).push(tv[i as int]));
                    assert(spec_regex_var_names(tv, i as int, predom) == seq![tv[i as int]]
                        + spec_regex_var_names(tv, i + 1, predom.insert(tv[i as int])));
                    assert(pre.map_values(|v: VariableInfo| v.name@) + (seq![tv[i as int]]
                        + spec_regex_var_names(tv, i + 1, predom.insert(tv[i as int]))) =~= out@
                        .map_values(|v: VariableInfo| v.name@) + spec_regex_var_names(
                        tv,
                        i + 1,
                        seen@.dom(),
                    ));
                }
            } else {
                proof {
                    assert(seen@.dom().contains(tv[i as int]));
                    assert(spec_regex_var_names(tv, i as int, seen@.dom())
                        == spec_regex_var_names(tv, i + 1, seen@.dom()));
                }
            }
        } else {
            proof {
                assert(!spec_var_usable(tv[i as int]));
                assert(spec_regex_var_names(tv, i as int, seen@.dom()) == spec_regex_var_names(
                    tv,
                    i + 1,
                    seen@.dom(),
                ));
            }
        }
        i += 1;
    }
    proof {
        assert(spec_regex_var_names(tv, tv.len() as int, seen@.dom())
            =~= Seq::<Seq<char>>::empty());
        assert(out@.map_values(|v: VariableInfo| v.name@) + Seq::<Seq<char>>::empty() =~= out@
            .map_values(|v: VariableInfo| v.name@));
        assert(tv == spec_var_texts(language, body@));
    }
    out
}

/// A name is a capture of one of the language's variable patterns over
/// the body.
pub open spec fn spec_var_captured(name: Seq<char>, language: Language, body: Seq<char>) -> bool {
    regex_group_texts(spec_var_pattern(language, 0), body, spec_var_group(language, 0)).contains(
        name,
    ) || regex_group_texts(spec_var_pattern(language, 1), body, spec_var_group(language, 1))
        .contains(name)
}

/// Every collected text is a capture of one of the language's variable
/// patterns over the body.
pub open spec fn spec_texts_sound(texts: Seq<String>, language: Language, body: Seq<char>) -> bool {
    forall|k: int| #![trigger texts[k]]
        0 <= k < texts.len() ==> spec_var_captured(texts[k]@, language, body)
}

/// The pattern source a language's fallback uses, by position.
pub open spec fn spec_var_pattern(language: Language, pi: int) -> Seq<char> {
    if language == Language::Rust {
        "let\\s+(mut\\s+)?(\\w+)"@
    } else if language == Language::Python {
        "^\\s+(\\w+)\\s*="@
    } else if language == Language::TypeScript || language == Language::JavaScript {
        "(?:let|const|var)\\s+(\\w+)"@
    } else if language == Language::Go {
        if pi == 1 {
            "var\\s+(\\w+)"@
        } else {
            "(\\w+)\\s*:="@
        }
    } else {
        Seq::empty()
    }
}

/// The capture group that pattern reads.
pub open spec fn spec_var_group(language: Language, pi: int) -> int {
    if language == Language::Rust {
        2
    } else {
        1
    }
}

/// The texts the language's variable patterns capture over a body, in
/// pattern order.
pub open spec fn spec_var_texts(language: Language, body: Seq<char>) -> Seq<Seq<char>> {
    if language == Language::Go {
        regex_group_texts(spec_var_pattern(language, 0), body, spec_var_group(language, 0))
            + regex_group_texts(spec_var_pattern(language, 1), body, spec_var_group(language, 1))
    } else if language == Language::Rust || language == Language::Python || language
        == Language::TypeScript || language == Language::JavaScript {
        regex_group_texts(spec_var_pattern(language, 0), body, spec_var_group(language, 0))
    } else {
        Seq::empty()
    }
}

/// The de-duplicated usable names among captured texts, in first-seen
/// order.
pub open spec fn spec_regex_var_names(
    texts: Seq<Seq<char>>,
    i: int,
    seen: Set<Seq<char>>,
) -> Seq<Seq<char>>
    decreases texts.len() - i,
{
    if i < 0 || i >= texts.len() {
        Seq::empty()
    } else if spec_var_usable(texts[i]) && !seen.contains(texts[i]) {
        seq![texts[i]] + spec_regex_var_names(texts, i + 1, seen.insert(texts[i]))
    } else {
        spec_regex_var_names(texts, i + 1, seen)
    }
}

/// Append one pattern's captured names.
#[verifier::loop_isolation(false)]
fn collect_group(texts: &mut Vec<String>, body: &str, pat: &str, group: usize)
    ensures
        final(texts)@.len() >= old(texts)@.len(),
        forall|k: int| 0 <= k < old(texts)@.len() ==> final(texts)@[k] == old(texts)@[k],
        forall|k: int|
            old(texts)@.len() <= k < final(texts)@.len() ==> regex_group_texts(
                pat@,
                body@,
                group as int,
            ).contains((#[trigger] final(texts)@[k])@),
        final(texts).deep_view() == old(texts).deep_view() + regex_group_texts(
            pat@,
            body@,
            group as int,
        ),
{
    let grabbed = re_capture_texts(pat, body, group);
    let ghost base = texts@.len();
    let ghost basedv = texts.deep_view();
    let mut j: usize = 0;
    while j < grabbed.len()
        invariant
            base <= texts@.len(),
            j <= grabbed@.len(),
            grabbed.deep_view() == regex_group_texts(pat@, body@, group as int),
            grabbed.deep_view().len() == grabbed@.len(),
            forall|k: int| 0 <= k < base ==> texts@[k] == old(texts)@[k],
            forall|k: int|
                base <= k < texts@.len() ==> regex_group_texts(pat@, body@, group as int).contains(
                    (#[trigger] texts@[k])@,
                ),
            texts.deep_view() == basedv + grabbed.deep_view().take(j as int),
        decreases grabbed@.len() - j,
    {
        let ghost pre = texts@;
        let ghost predv = texts.deep_view();
        texts.push(grabbed[j].clone());
        proof {
            assert(forall|k: int| 0 <= k < pre.len() ==> texts@[k] == pre[k]);
            assert(grabbed.deep_view()[j as int] == grabbed@[j as int]@);
            assert(regex_group_texts(pat@, body@, group as int).contains(grabbed@[j as int]@));
            assert(texts@[pre.len() as int]@ == grabbed@[j as int]@);
            assert(texts.deep_view() =~= predv.push(grabbed@[j as int]@)) by {
                assert(texts.deep_view().len() == texts@.len());
                assert forall|k: int| 0 <= k < texts@.len() implies texts.deep_view()[k] == texts@[
                    k]@ by {}
                assert(forall|k: int| 0 <= k < predv.len() ==> predv[k] == pre[k]@);
            }
            assert(grabbed.deep_view().take(j + 1) =~= grabbed.deep_view().take(j as int).push(
                grabbed.deep_view()[j as int],
            ));
            assert(texts.deep_view() =~= basedv + grabbed.deep_view().take(j + 1));
        }
        j += 1;
    }
    proof {
        assert(grabbed.deep_view().take(grabbed@.len() as int) =~= grabbed.deep_view());
    }
}

/// The names of local variables inside a function, parser-based where the
/// language has a profile and its grammar loads, by the regex fallback
/// otherwise. All reported names are pairwise distinct. Fails exactly
/// when the function symbol is unknown.
pub fn list_variables(
    symbol_table: &SymbolTable,
    function_name: &str,
    file: &str,
    source: &str,
) -> (r: Result<Vec<VariableInfo>, String>)
    requires
        source.spec_bytes().len() < usize::MAX,
    ensures
        r is Ok <==> symbol_table.symbols@.contains_key(spec_key(file@, function_name@)),
        match r {
            Ok(vars) => (forall|a: int, b: int|
                0 <= a < b < vars@.len() ==> (#[trigger] vars@[a]).name@ != (
                #[trigger] vars@[b]).name@) && (forall|k: int|
                0 <= k < vars@.len() ==> (#[trigger] vars@[k]).function@ == function_name@) && ({
                let sym = symbol_table.symbols@[spec_key(file@, function_name@)];
                spec_has_profile(sym.language) && crate::parser::grammar_loads(sym.language)
                    ==> ({
                    let bytes = source.spec_bytes();
                    let start = if sym.byte_range.0 <= bytes.len() {
                        sym.byte_range.0 as int
                    } else {
                        bytes.len() as int
                    };
                    let end0 = if sym.byte_range.1 <= bytes.len() {
                        sym.byte_range.1 as int
                    } else {
                        bytes.len() as int
                    };
                    let end = if start <= end0 {
                        end0
                    } else {
                        start
                    };
                    let names = spec_var_names(
                        crate::parser::ts_query_caps(
                            sym.language,
                            crate::queries::spec_variables_query(sym.language),
                            source@,
                            start,
                            end,
                        ),
                        0,
                        Set::empty(),
                    );
                    vars@.len() == names.len() && forall|k: int|
                        0 <= k < vars@.len() ==> (#[trigger] vars@[k]).name@ == names[k]
                })
            }) && (forall|k: int|
                0 <= k < vars@.len() ==> spec_var_usable((#[trigger] vars@[k]).name@)) && ({
                let sym = symbol_table.symbols@[spec_key(file@, function_name@)];
                let bytes = source.spec_bytes();
                let start = if sym.byte_range.0 <= bytes.len() {
                    sym.byte_range.0 as int
                } else {
                    bytes.len() as int
                };
                let end0 = if sym.byte_range.1 <= bytes.len() {
                    sym.byte_range.1 as int
                } else {
                    bytes.len() as int
                };
                let end = if start <= end0 {
                    end0
                } else {
                    start
                };
                !(spec_has_profile(sym.language) && crate::parser::grammar_loads(sym.language))
                    && vstd::utf8::valid_utf8(bytes.subrange(start, end)) ==> forall|k: int|
                    0 <= k < vars@.len() ==> spec_var_captured(
                        (#[trigger] vars@[k]).name@,
                        sym.language,
                        vstd::utf8::decode_utf8(bytes.subrange(start, end)),
                    )
            }),
            Err(_) => true,
        },
{
    let sym = match symbol_table.get(file, function_name) {
        Some(s) => s,
        None => {
            let mut msg = String::from_str("Symbol '");
            msg.append(function_name);
            msg.append("' not found in '");
            msg.append(file);
            msg.append("'");
            return Err(msg);
        },
    };
    let blen = source.len();
    let start = if sym.byte_range.0 <= blen {
        sym.byte_range.0
    } else {
        blen
    };
    let end = if sym.byte_range.1 <= blen {
        sym.byte_range.1
    } else {
        blen
    };
    let end = if start <= end {
        end
    } else {
        start
    };
    if crate::parser::grammar_ready(&sym.language) {
        let ast = list_variables_ast(source, sym.language, start, end, function_name);
        return Ok(ast);
    }
    // no loadable grammar: fall back to the regex scan over the body slice
    let body = source_slice(source, start, end);
    Ok(list_variables_regex(body.as_str(), sym.language, function_name))
}

/// The UTF-8 text of a byte window of the source, lossily decoded.
/// Relies on String::from_utf8_lossy: the identity on well-formed UTF-8.
#[verifier::external_body]
fn source_slice(source: &str, start: usize, end: usize) -> (r: String)
    requires
        start <= end,
        end <= source.spec_bytes().len(),
    ensures
        vstd::utf8::valid_utf8(source.spec_bytes().subrange(start as int, end as int)) ==> r@
            == vstd::utf8::decode_utf8(source.spec_bytes().subrange(start as int, end as int)),
{
    String::from_utf8_lossy(&source.as_bytes()[start..end]).to_string()
}

} // verus!