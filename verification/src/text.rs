//! Verified string primitives: substring tests, splitting, lexicographic
//! order, and decimal formatting, all specified over `Seq<char>` views.
use vstd::prelude::*;
use vstd::string::StrSliceExecFns;
use vstd::string::StringExecFns;

verus! {

/// `sub` occurs in `s` at offset `i`.
pub open spec fn spec_match_at(s: Seq<char>, i: int, sub: Seq<char>) -> bool {
    0 <= i && i + sub.len() <= s.len() && s.subrange(i, i + sub.len() as int) == sub
}

/// `sub` occurs somewhere in `s`.
pub open spec fn spec_contains(s: Seq<char>, sub: Seq<char>) -> bool {
    exists|i: int| spec_match_at(s, i, sub)
}

pub open spec fn spec_starts_with(s: Seq<char>, pre: Seq<char>) -> bool {
    spec_match_at(s, 0, pre)
}

pub open spec fn spec_ends_with(s: Seq<char>, suf: Seq<char>) -> bool {
    spec_match_at(s, s.len() - suf.len(), suf)
}

/// Whether the characters of `sub` stand at offset `i` of `s`.
pub fn str_match_at(s: &str, i: usize, sub: &str) -> (r: bool)
    ensures
        r == spec_match_at(s@, i as int, sub@),
{
    let slen: usize = s.unicode_len();
    let sublen: usize = sub.unicode_len();
    if i > slen || sublen > slen - i {
        return false;
    }
    let mut j: usize = 0;
    while j < sublen
        invariant
            i + sublen <= slen,
            slen == s@.len(),
            sublen == sub@.len(),
            j <= sublen,
            forall|k: int| 0 <= k < j ==> s@[i + k] == sub@[k],
        decreases sublen - j,
    {
        if s.get_char(i + j) != sub.get_char(j) {
            proof {
                assert(spec_match_at(s@, i as int, sub@) ==> s@.subrange(
                    i as int,
                    i + sub@.len(),
                )[j as int] == sub@[j as int]);
            }
            return false;
        }
        j += 1;
    }
    proof {
        assert(s@.subrange(i as int, i + sub@.len()) =~= sub@);
    }
    true
}

/// Substring test, exact against `spec_contains`.
pub fn str_contains(s: &str, sub: &str) -> (r: bool)
    ensures
        r == spec_contains(s@, sub@),
{
    let slen: usize = s.unicode_len();
    let sublen: usize = sub.unicode_len();
    if sublen > slen {
        return false;
    }
    if sublen == 0 {
        proof {
            assert(s@.subrange(0, 0) =~= sub@);
            assert(spec_match_at(s@, 0, sub@));
        }
        return true;
    }
    let mut i: usize = 0;
    while i <= slen - sublen
        invariant
            0 < sublen <= slen,
            slen == s@.len(),
            sublen == sub@.len(),
            i <= slen - sublen + 1,
            forall|k: int| 0 <= k < i ==> !spec_match_at(s@, k, sub@),
        decreases slen - sublen - i + 1,
    {
        if str_match_at(s, i, sub) {
            return true;
        }
        i += 1;
    }
    false
}

pub fn str_starts_with(s: &str, pre: &str) -> (r: bool)
    ensures
        r == spec_starts_with(s@, pre@),
{
    str_match_at(s, 0, pre)
}

pub fn str_ends_with(s: &str, suf: &str) -> (r: bool)
    ensures
        r == spec_ends_with(s@, suf@),
{
    let slen: usize = s.unicode_len();
    let suflen: usize = suf.unicode_len();
    if suflen > slen {
        return false;
    }
    str_match_at(s, slen - suflen, suf)
}

/// Character-for-character equality of two string slices.
pub fn str_eq(a: &str, b: &str) -> (r: bool)
    ensures
        r == (a@ == b@),
{
    let alen: usize = a.unicode_len();
    let blen: usize = b.unicode_len();
    if alen != blen {
        return false;
    }
    let r = str_match_at(a, 0, b);
    proof {
        assert(a@.subrange(0, a@.len() as int) =~= a@);
    }
    r
}

/// Index of the first occurrence of `c` in `s`, or -1 when absent.
pub open spec fn spec_find_char(s: Seq<char>, c: char) -> int
    decreases s.len(),
{
    if s.len() == 0 {
        -1
    } else if s[0] == c {
        0
    } else {
        let r = spec_find_char(s.drop_first(), c);
        if r < 0 {
            -1
        } else {
            r + 1
        }
    }
}

pub proof fn lemma_find_char_at(s: Seq<char>, c: char, i: int)
    requires
        0 <= i < s.len(),
        s[i] == c,
        forall|k: int| 0 <= k < i ==> s[k] != c,
    ensures
        spec_find_char(s, c) == i,
    decreases i,
{
    if i > 0 {
        lemma_find_char_at(s.drop_first(), c, i - 1);
    }
}

pub proof fn lemma_find_char_none(s: Seq<char>, c: char)
    requires
        forall|k: int| 0 <= k < s.len() ==> s[k] != c,
    ensures
        spec_find_char(s, c) == -1,
    decreases s.len(),
{
    if s.len() > 0 {
        lemma_find_char_none(s.drop_first(), c);
    }
}

/// The segments of `s` between occurrences of `sep`.
pub open spec fn spec_split(s: Seq<char>, sep: char) -> Seq<Seq<char>>
    decreases s.len(),
{
    let i = spec_find_char(s, sep);
    if i < 0 {
        seq![s]
    } else if i < s.len() {
        seq![s.subrange(0, i)] + spec_split(s.subrange(i + 1, s.len() as int), sep)
    } else {
        seq![s]
    }
}

proof fn lemma_find_char_in_range(s: Seq<char>, c: char)
    ensures
        spec_find_char(s, c) < s.len(),
        spec_find_char(s, c) >= 0 ==> s[spec_find_char(s, c)] == c,
    decreases s.len(),
{
    if s.len() > 0 && s[0] != c {
        lemma_find_char_in_range(s.drop_first(), c);
    }
}

/// Split `s` on `sep`; exact against `spec_split`.
pub fn str_split(s: &str, sep: char) -> (r: Vec<String>)
    ensures
        r.deep_view() == spec_split(s@, sep),
        r.len() >= 1,
    decreases s@.len(),
{
    let slen: usize = s.unicode_len();
    let mut i: usize = 0;
    while i < slen
        invariant
            i <= slen,
            slen == s@.len(),
            forall|k: int| 0 <= k < i ==> s@[k] != sep,
        decreases slen - i,
    {
        if s.get_char(i) == sep {
            proof {
                lemma_find_char_at(s@, sep, i as int);
            }
            let first = String::from_str(s.substring_char(0, i));
            let rest_str = s.substring_char(i + 1, slen);
            let mut rest = str_split(rest_str, sep);
            rest.insert(0, first);
            proof {
                assert(rest.deep_view() =~= spec_split(s@, sep));
            }
            return rest;
        }
        i += 1;
    }
    proof {
        lemma_find_char_none(s@, sep);
    }
    let mut r: Vec<String> = Vec::new();
    r.push(String::from_str(s));
    proof {
        assert(r.deep_view() =~= spec_split(s@, sep));
    }
    r
}

/// Some character of `s` is `c`.
pub open spec fn has_char(s: Seq<char>, c: char) -> bool {
    exists|j: int| 0 <= j < s.len() && s[j] == c
}

/// No segment of a split contains the separator.
pub proof fn lemma_split_segments_clean(s: Seq<char>, sep: char)
    ensures
        forall|i: int|
            0 <= i < spec_split(s, sep).len() ==> !has_char(#[trigger] spec_split(s, sep)[i], sep),
    decreases s.len(),
{
    lemma_find_char_in_range(s, sep);
    let f = spec_find_char(s, sep);
    if f >= 0 {
        lemma_split_segments_clean(s.subrange(f + 1, s.len() as int), sep);
        assert forall|i: int| 0 <= i < spec_split(s, sep).len() implies !has_char(
            #[trigger] spec_split(s, sep)[i],
            sep,
        ) by {
            if i == 0 {
                assert forall|j: int| 0 <= j < f implies s.subrange(0, f)[j] != sep by {
                    lemma_find_char_first(s, sep, j);
                }
            } else {
                assert(spec_split(s, sep)[i] == spec_split(s.subrange(f + 1, s.len() as int), sep)[
                    i - 1]);
            }
        }
    } else {
        assert forall|i: int| 0 <= i < spec_split(s, sep).len() implies !has_char(
            #[trigger] spec_split(s, sep)[i],
            sep,
        ) by {
            assert(spec_split(s, sep)[0] == s);
            assert forall|j: int| 0 <= j < s.len() implies s[j] != sep by {
                lemma_find_char_first(s, sep, j);
            }
        }
    }
}

/// Positions before the first occurrence never hold the character, and a
/// position holding it never precedes the first occurrence.
proof fn lemma_find_char_first(s: Seq<char>, c: char, j: int)
    requires
        0 <= j < s.len(),
    ensures
        spec_find_char(s, c) == -1 ==> s[j] != c,
        0 <= spec_find_char(s, c) ==> (j < spec_find_char(s, c) ==> s[j] != c),
    decreases s.len(),
{
    if s.len() > 0 && s[0] != c && j > 0 {
        lemma_find_char_first(s.drop_first(), c, j - 1);
    }
}

/// Joining the segments with the separator restores the string.
pub open spec fn spec_join(parts: Seq<Seq<char>>, sep: char) -> Seq<char>
    decreases parts.len(),
{
    if parts.len() == 0 {
        Seq::empty()
    } else if parts.len() == 1 {
        parts[0]
    } else {
        parts[0] + seq![sep] + spec_join(parts.drop_first(), sep)
    }
}

pub proof fn lemma_split_join(s: Seq<char>, sep: char)
    ensures
        spec_join(spec_split(s, sep), sep) == s,
    decreases s.len(),
{
    lemma_find_char_in_range(s, sep);
    let f = spec_find_char(s, sep);
    if f >= 0 {
        let rest = s.subrange(f + 1, s.len() as int);
        lemma_split_join(rest, sep);
        assert(spec_split(s, sep).drop_first() =~= spec_split(rest, sep));
        assert(spec_split(rest, sep).len() >= 1);
        assert(spec_join(spec_split(s, sep), sep) =~= s.subrange(0, f) + seq![sep] + rest);
        assert(s.subrange(0, f) + seq![sep] + rest =~= s);
    }
}

/// Two strings with the same split are the same string.
pub proof fn lemma_split_injective(a: Seq<char>, b: Seq<char>, sep: char)
    requires
        spec_split(a, sep) == spec_split(b, sep),
    ensures
        a == b,
{
    lemma_split_join(a, sep);
    lemma_split_join(b, sep);
}

/// Extending a prefix by one element extends its filtered image by that
/// element exactly when the predicate holds of it.
pub proof fn lemma_filter_take_snoc<A>(s: Seq<A>, pred: spec_fn(A) -> bool, n: int)
    requires
        0 <= n < s.len(),
    ensures
        s.take(n + 1).filter(pred) == if pred(s[n]) {
            s.take(n).filter(pred).push(s[n])
        } else {
            s.take(n).filter(pred)
        },
{
    reveal(Seq::filter);
    assert(s.take(n + 1) =~= s.take(n).push(s[n]));
    assert(s.take(n).push(s[n]).drop_last() =~= s.take(n));
    if pred(s[n]) {
        assert(s.take(n + 1).filter(pred) =~= s.take(n).filter(pred).push(s[n]));
    } else {
        assert(s.take(n + 1).filter(pred) =~= s.take(n).filter(pred));
    }
}

/// Every element of a filtered sequence comes from the original.
pub proof fn lemma_filter_elems<A>(s: Seq<A>, pred: spec_fn(A) -> bool)
    ensures
        forall|i: int|
            0 <= i < s.filter(pred).len() ==> s.contains(#[trigger] s.filter(pred)[i]),
    decreases s.len(),
{
    reveal(Seq::filter);
    if s.len() > 0 {
        lemma_filter_elems(s.drop_last(), pred);
        assert forall|i: int| 0 <= i < s.filter(pred).len() implies s.contains(
            #[trigger] s.filter(pred)[i],
        ) by {
            let out = s.filter(pred);
            let dl = s.drop_last().filter(pred);
            if pred(s.last()) && i == out.len() - 1 {
                assert(s[s.len() - 1] == out[i]);
            } else {
                assert(out[i] == dl[i]);
                assert(s.drop_last().contains(dl[i]));
                let j = choose|j: int| 0 <= j < s.drop_last().len() && s.drop_last()[j] == dl[i];
                assert(s[j] == out[i]);
            }
        }
    }
}

/// A line with any trailing carriage return removed.
pub open spec fn spec_trim_cr(p: Seq<char>) -> Seq<char> {
    if p.len() > 0 && p.last() == '\r' {
        p.drop_last()
    } else {
        p
    }
}

/// The lines of `s`: split on newline, a trailing empty segment dropped,
/// each line stripped of a trailing carriage return.
pub open spec fn spec_lines(s: Seq<char>) -> Seq<Seq<char>> {
    if s.len() == 0 {
        Seq::empty()
    } else {
        let parts = if s.last() == '\n' {
            spec_split(s, '\n').drop_last()
        } else {
            spec_split(s, '\n')
        };
        parts.map_values(|p: Seq<char>| spec_trim_cr(p))
    }
}

/// There are never more lines than characters.
pub proof fn lemma_lines_len(s: Seq<char>)
    ensures
        spec_lines(s).len() <= s.len(),
{
    lemma_split_count(s, '\n');
}

proof fn lemma_split_count(s: Seq<char>, sep: char)
    ensures
        spec_split(s, sep).len() <= s.len() + 1,
        s.len() > 0 && s.last() != sep ==> spec_split(s, sep).len() <= s.len(),
    decreases s.len(),
{
    lemma_find_char_in_range(s, sep);
    let f = spec_find_char(s, sep);
    if f >= 0 {
        let rest = s.subrange(f + 1, s.len() as int);
        lemma_split_count(rest, sep);
        if s.last() != sep {
            assert(f < s.len() - 1);
            assert(rest.len() > 0 && rest.last() == s.last());
        }
    }
}

/// Split `s` into lines as the standard line iterator does.
pub fn str_lines(s: &str) -> (r: Vec<String>)
    ensures
        r.deep_view() == spec_lines(s@),
{
    let slen: usize = s.unicode_len();
    if slen == 0 {
        let r: Vec<String> = Vec::new();
        proof {
            assert(r.deep_view() =~= spec_lines(s@));
        }
        return r;
    }
    let mut parts = str_split(s, '\n');
    let ghost all_parts = parts.deep_view();
    if s.get_char(slen - 1) == '\n' {
        parts.pop();
    }
    let ghost kept = parts.deep_view();
    let mut r: Vec<String> = Vec::new();
    let mut i: usize = 0;
    while i < parts.len()
        invariant
            i <= parts.len(),
            parts.deep_view() == kept,
            r@.len() == i,
            forall|j: int| 0 <= j < i ==> r.deep_view()[j] == spec_trim_cr(kept[j]),
        decreases parts.len() - i,
    {
        let p = &parts[i];
        let plen: usize = p.as_str().unicode_len();
        let line: String = if plen > 0 && p.as_str().get_char(plen - 1) == '\r' {
            String::from_str(p.as_str().substring_char(0, plen - 1))
        } else {
            p.clone()
        };
        proof {
            assert(kept[i as int] == parts@[i as int].deep_view());
            assert(line@ =~= spec_trim_cr(kept[i as int]));
        }
        let ghost pre = r@;
        let ghost pred = r.deep_view();
        r.push(line);
        proof {
            assert(forall|j: int| 0 <= j < pre.len() ==> #[trigger] pred[j] == pre[j].deep_view());
            assert(forall|j: int| 0 <= j < pre.len() ==> r@[j] == pre[j]);
            assert(forall|j: int| 0 <= j < pre.len() ==> #[trigger] r.deep_view()[j] == pre[j].deep_view());
            assert(forall|j: int| 0 <= j < pre.len() ==> #[trigger] r.deep_view()[j] == pred[j]);
            assert(forall|j: int| 0 <= j < pre.len() ==> #[trigger] pred[j] == spec_trim_cr(kept[j]));
            assert(r.deep_view()[i as int] == line@);
            assert(forall|j: int| 0 <= j < i + 1 ==> #[trigger] r.deep_view()[j] == spec_trim_cr(kept[j]));
        }
        i += 1;
    }
    proof {
        assert(r.deep_view() =~~= spec_lines(s@));
    }
    r
}

/// Lexicographic order on character sequences, by scalar value.
pub open spec fn lex_leq(a: Seq<char>, b: Seq<char>) -> bool
    decreases a.len(),
{
    if a.len() == 0 {
        true
    } else if b.len() == 0 {
        false
    } else if a[0] == b[0] {
        lex_leq(a.drop_first(), b.drop_first())
    } else {
        (a[0] as int) < (b[0] as int)
    }
}

pub proof fn lemma_lex_total(a: Seq<char>, b: Seq<char>)
    ensures
        lex_leq(a, b) || lex_leq(b, a),
    decreases a.len(),
{
    if a.len() > 0 && b.len() > 0 {
        if a[0] == b[0] {
            lemma_lex_total(a.drop_first(), b.drop_first());
        } else {
            assert((a[0] as int) != (b[0] as int));
        }
    }
}

pub proof fn lemma_lex_trans(a: Seq<char>, b: Seq<char>, c: Seq<char>)
    requires
        lex_leq(a, b),
        lex_leq(b, c),
    ensures
        lex_leq(a, c),
    decreases a.len(),
{
    if a.len() > 0 && b.len() > 0 && c.len() > 0 {
        if a[0] == b[0] && b[0] == c[0] {
            lemma_lex_trans(a.drop_first(), b.drop_first(), c.drop_first());
        }
    }
}

pub proof fn lemma_lex_antisym(a: Seq<char>, b: Seq<char>)
    requires
        lex_leq(a, b),
        lex_leq(b, a),
    ensures
        a == b,
    decreases a.len(),
{
    if a.len() > 0 && b.len() > 0 && a[0] == b[0] {
        lemma_lex_antisym(a.drop_first(), b.drop_first());
        assert(a =~= seq![a[0]].add(a.drop_first()));
        assert(b =~= seq![b[0]].add(b.drop_first()));
    } else if a.len() > 0 && b.len() > 0 {
        assert((a[0] as int) != (b[0] as int));
    } else {
        assert(a.len() == 0 && b.len() == 0);
        assert(a =~= b);
    }
}

proof fn lemma_lex_skip(a: Seq<char>, b: Seq<char>, i: int)
    requires
        0 <= i <= a.len(),
        i <= b.len(),
        forall|k: int| 0 <= k < i ==> a[k] == b[k],
    ensures
        lex_leq(a, b) == lex_leq(a.skip(i), b.skip(i)),
    decreases i,
{
    if i > 0 {
        assert(a.len() > 0 && b.len() > 0 && a[0] == b[0]);
        lemma_lex_skip(a.drop_first(), b.drop_first(), i - 1);
        assert(a.drop_first().skip(i - 1) =~= a.skip(i));
        assert(b.drop_first().skip(i - 1) =~= b.skip(i));
    } else {
        assert(a.skip(0) =~= a);
        assert(b.skip(0) =~= b);
    }
}

/// `a <= b` in lexicographic order.
pub fn str_le(a: &str, b: &str) -> (r: bool)
    ensures
        r == lex_leq(a@, b@),
{
    let alen: usize = a.unicode_len();
    let blen: usize = b.unicode_len();
    let mut i: usize = 0;
    loop
        invariant
            alen == a@.len(),
            blen == b@.len(),
            i <= alen,
            i <= blen,
            forall|k: int| 0 <= k < i ==> a@[k] == b@[k],
        decreases alen - i,
    {
        proof {
            lemma_lex_skip(a@, b@, i as int);
        }
        if i >= alen {
            proof {
                assert(a@.skip(i as int) =~= Seq::<char>::empty());
            }
            return true;
        }
        if i >= blen {
            proof {
                assert(b@.skip(i as int) =~= Seq::<char>::empty());
            }
            return false;
        }
        let ca = a.get_char(i);
        let cb = b.get_char(i);
        if ca != cb {
            proof {
                assert(a@.skip(i as int)[0] == ca);
                assert(b@.skip(i as int)[0] == cb);
            }
            return (ca as u32) < (cb as u32);
        }
        i += 1;
    }
}

pub open spec fn spec_digit(d: int) -> char {
    if d == 0 {
        '0'
    } else if d == 1 {
        '1'
    } else if d == 2 {
        '2'
    } else if d == 3 {
        '3'
    } else if d == 4 {
        '4'
    } else if d == 5 {
        '5'
    } else if d == 6 {
        '6'
    } else if d == 7 {
        '7'
    } else if d == 8 {
        '8'
    } else {
        '9'
    }
}

/// Decimal digits of `n`, most significant first.
pub open spec fn spec_dec(n: int) -> Seq<char>
    decreases n,
{
    if n < 10 {
        seq![spec_digit(n)]
    } else {
        spec_dec(n / 10).push(spec_digit(n % 10))
    }
}

fn digit_str(d: usize) -> (r: &'static str)
    requires
        d < 10,
    ensures
        r@ =~= seq![spec_digit(d as int)],
{
    proof {
        reveal_strlit("0");
        reveal_strlit("1");
        reveal_strlit("2");
        reveal_strlit("3");
        reveal_strlit("4");
        reveal_strlit("5");
        reveal_strlit("6");
        reveal_strlit("7");
        reveal_strlit("8");
        reveal_strlit("9");
    }
    if d == 0 {
        "0"
    } else if d == 1 {
        "1"
    } else if d == 2 {
        "2"
    } else if d == 3 {
        "3"
    } else if d == 4 {
        "4"
    } else if d == 5 {
        "5"
    } else if d == 6 {
        "6"
    } else if d == 7 {
        "7"
    } else if d == 8 {
        "8"
    } else {
        "9"
    }
}

/// Render `n` in decimal.
pub fn fmt_usize(n: usize) -> (r: String)
    ensures
        r@ == spec_dec(n as int),
    decreases n,
{
    if n < 10 {
        String::from_str(digit_str(n))
    } else {
        fmt_usize(n / 10).concat(digit_str(n % 10))
    }
}

/// `s` preceded by as many spaces as bring it to width `w`.
pub open spec fn spec_pad_left(s: Seq<char>, w: int) -> Seq<char>
    decreases w - s.len(),
{
    if s.len() >= w {
        s
    } else {
        spec_pad_left(seq![' '].add(s), w)
    }
}

pub fn pad_left(s: String, w: usize) -> (r: String)
    ensures
        r@ == spec_pad_left(s@, w as int),
{
    let mut cur = s;
    while cur.as_str().unicode_len() < w
        invariant
            spec_pad_left(cur@, w as int) == spec_pad_left(s@, w as int),
        decreases w - cur@.len(),
    {
        proof {
            reveal_strlit(" ");
            assert(" "@ =~= seq![' ']);
        }
        let next = String::from_str(" ").concat(cur.as_str());
        proof {
            assert(next@ =~= seq![' '].add(cur@));
        }
        cur = next;
    }
    cur
}

/// A string never has more characters than encoded bytes.
pub proof fn lemma_chars_le_bytes(s: Seq<char>)
    ensures
        s.len() <= vstd::utf8::encode_utf8(s).len(),
    decreases s.len(),
{
    if s.len() > 0 {
        lemma_chars_le_bytes(s.drop_first());
        assert(vstd::utf8::encode_scalar(s[0] as u32).len() >= 1);
    }
}

/// An ASCII-whitespace character.
pub open spec fn spec_is_space(c: char) -> bool {
    c == ' ' || c == '\t' || c == '\r' || c == '\n'
}

/// Leading and trailing ASCII whitespace removed.
pub open spec fn spec_trim(s: Seq<char>) -> Seq<char>
    decreases s.len(),
{
    if s.len() == 0 {
        s
    } else if spec_is_space(s[0]) {
        spec_trim(s.drop_first())
    } else if spec_is_space(s.last()) {
        spec_trim(s.drop_last())
    } else {
        s
    }
}

/// Trim ASCII whitespace from both ends.
pub fn str_trim(s: &str) -> (r: String)
    ensures
        r@ == spec_trim(s@),
    decreases s@.len(),
{
    let n: usize = s.unicode_len();
    if n == 0 {
        return String::from_str(s);
    }
    let c0 = s.get_char(0);
    if c0 == ' ' || c0 == '\t' || c0 == '\r' || c0 == '\n' {
        return str_trim(s.substring_char(1, n));
    }
    let cl = s.get_char(n - 1);
    if cl == ' ' || cl == '\t' || cl == '\r' || cl == '\n' {
        return str_trim(s.substring_char(0, n - 1));
    }
    String::from_str(s)
}

/// What `str::to_lowercase` returns for a given character sequence.
pub uninterp spec fn lower_of(s: Seq<char>) -> Seq<char>;

/// Relies on str::to_lowercase: the result depends on the characters alone.
#[verifier::external_body]
pub(crate) fn to_lower(s: &str) -> (r: String)
    ensures
        r@ == lower_of(s@),
{
    s.to_lowercase()
}

} // verus!
