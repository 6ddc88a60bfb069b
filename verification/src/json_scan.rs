//! What the top-level scans of a flat JSON object find, stated without the
//! scans: the first colon outside strings, and the parts between the
//! separators.
use vstd::prelude::*;

use crate::json::{
    colon_scan, spec_find_unquoted_colon, spec_split_unquoted, split_run, split_start, split_step,
    SplitState,
};
use crate::json::{parse_strings, spec_json_string, spec_parse_json_string, spec_parse_json_string_array};
use crate::json_laws::{
    lemma_json_string_shape, lemma_parse_json_string, lemma_run_json_string, lemma_run_plain,
    lemma_run_sep, lemma_split_run_concat, with_current,
};
use crate::json::{all_hex, decode, hex_digit_value, hex_len, hex_value, parse_hex_u32};
use crate::text::{
    ascii_lower, is_ws, lemma_trim_leading, lemma_trim_noop, lemma_trim_trailing, lower, shift, trim,
};

verus! {

// ---------------------------------------------------------------------
// The first colon outside strings
// ---------------------------------------------------------------------

/// Whether a scan is inside a string, and just after a backslash there,
/// after reading `c`.
pub open spec fn quote_step(st: (bool, bool), c: char) -> (bool, bool) {
    if st.0 {
        (st.1 || c != '"', !st.1 && c == '\\')
    } else if c == '"' {
        (true, false)
    } else {
        (false, false)
    }
}

/// The string state after reading the first `i` characters of `s` from
/// `st`.
pub open spec fn quote_state(s: Seq<char>, i: int, st: (bool, bool)) -> (bool, bool)
    decreases s.len(),
{
    if i <= 0 || s.len() == 0 {
        st
    } else {
        quote_state(s.drop_first(), i - 1, quote_step(st, s[0]))
    }
}

/// `s[i]` is a colon that stands outside every string.
pub open spec fn free_colon(s: Seq<char>, i: int, st: (bool, bool)) -> bool {
    0 <= i < s.len() && s[i] == ':' && !quote_state(s, i, st).0
}

/// `s[i]` is the first colon that stands outside every string.
pub open spec fn first_free_colon(s: Seq<char>, i: int, st: (bool, bool)) -> bool {
    free_colon(s, i, st) && forall|j: int| 0 <= j < i ==> !#[trigger] free_colon(s, j, st)
}

proof fn lemma_free_colon_shift(s: Seq<char>, st: (bool, bool), i: int)
    requires
        s.len() > 0,
        i >= 0,
    ensures
        free_colon(s, i + 1, st) == free_colon(s.drop_first(), i, quote_step(st, s[0])),
{
    assert(quote_state(s, i + 1, st) == quote_state(s.drop_first(), i, quote_step(st, s[0])));
}

proof fn lemma_colon_scan_free(s: Seq<char>, ins: bool, esc: bool)
    ensures
        match colon_scan(s, ins, esc) {
            Some(i) => first_free_colon(s, i, (ins, esc)),
            None => forall|j: int| !#[trigger] free_colon(s, j, (ins, esc)),
        },
    decreases s.len(),
{
    let st = (ins, esc);
    if s.len() > 0 {
        let c = s[0];
        let st2 = quote_step(st, c);
        let t = s.drop_first();
        if !ins && c == ':' {
            assert(free_colon(s, 0, st));
        } else {
            lemma_colon_scan_free(t, st2.0, st2.1);
            assert(colon_scan(s, ins, esc) == shift(colon_scan(t, st2.0, st2.1), 1));
            assert(!free_colon(s, 0, st));
            match colon_scan(t, st2.0, st2.1) {
                Some(k) => {
                    lemma_free_colon_shift(s, st, k);
                    assert forall|j: int| 0 <= j < k + 1 implies !#[trigger] free_colon(s, j, st) by {
                        if j > 0 {
                            lemma_free_colon_shift(s, st, j - 1);
                            assert(!free_colon(t, j - 1, st2));
                        }
                    }
                },
                None => {
                    assert forall|j: int| !#[trigger] free_colon(s, j, st) by {
                        if j > 0 {
                            lemma_free_colon_shift(s, st, j - 1);
                            assert(!free_colon(t, j - 1, st2));
                        }
                    }
                },
            }
        }
    }
}

/// `find_unquoted_colon` gives the least index of a colon outside every
/// string (reading from the start; inside a string a backslash escapes the
/// next character), and nothing when there is no such colon.
pub proof fn lemma_find_unquoted_colon_least(s: Seq<char>)
    ensures
        match spec_find_unquoted_colon(s) {
            Some(i) => first_free_colon(s, i, (false, false)),
            None => forall|j: int| !#[trigger] free_colon(s, j, (false, false)),
        },
{
    lemma_colon_scan_free(s, false, false);
}

// ---------------------------------------------------------------------
// The parts between separators
// ---------------------------------------------------------------------

/// The parts joined with `sep` between them.
pub open spec fn join(ps: Seq<Seq<char>>, sep: char) -> Seq<char>
    decreases ps.len(),
{
    if ps.len() == 0 {
        Seq::empty()
    } else if ps.len() == 1 {
        ps[0]
    } else {
        join(ps.drop_last(), sep) + seq![sep] + ps.last()
    }
}

/// The parts, each followed by `sep`.
pub open spec fn terminated(ps: Seq<Seq<char>>, sep: char) -> Seq<char>
    decreases ps.len(),
{
    if ps.len() == 0 {
        Seq::empty()
    } else {
        terminated(ps.drop_last(), sep) + ps.last() + seq![sep]
    }
}

proof fn lemma_terminated_join(ps: Seq<Seq<char>>, sep: char)
    requires
        ps.len() > 0,
    ensures
        terminated(ps, sep) == join(ps, sep) + seq![sep],
    decreases ps.len(),
{
    if ps.len() == 1 {
        assert(ps.drop_last() =~= Seq::<Seq<char>>::empty());
        assert(terminated(ps.drop_last(), sep) =~= Seq::<char>::empty());
        assert(Seq::<char>::empty() + ps.last() =~= ps[0]);
    } else {
        lemma_terminated_join(ps.drop_last(), sep);
    }
}

proof fn lemma_split_run_text(s: Seq<char>, st: SplitState, sep: char)
    ensures
        terminated(split_run(s, st, sep).parts, sep) + split_run(s, st, sep).current == terminated(
            st.parts,
            sep,
        ) + st.current + s,
    decreases s.len(),
{
    if s.len() > 0 {
        let c = s[0];
        let st2 = split_step(st, c, sep);
        lemma_split_run_text(s.drop_first(), st2, sep);
        if st2.parts == st.parts {
            assert(st2.current == st.current.push(c));
        } else {
            assert(st2.parts == st.parts.push(st.current));
            assert(st2.parts.drop_last() =~= st.parts);
            assert(st2.current == Seq::<char>::empty());
            assert(c == sep);
        }
        assert(seq![c] + s.drop_first() =~= s);
        assert(terminated(st2.parts, sep) + st2.current + s.drop_first() =~= terminated(
            st.parts,
            sep,
        ) + st.current + s);
    }
}

/// The parts `split_unquoted` cuts, joined again with `sep`, give the
/// text back, but for a final `sep` after which nothing stood.
pub proof fn lemma_split_unquoted_join(s: Seq<char>, sep: char)
    ensures
        join(spec_split_unquoted(s, sep), sep) == s || (spec_split_unquoted(s, sep).len() > 0 && join(
            spec_split_unquoted(s, sep),
            sep,
        ) + seq![sep] == s),
{
    let f = split_run(s, split_start(), sep);
    lemma_split_run_text(s, split_start(), sep);
    assert(terminated(Seq::<Seq<char>>::empty(), sep) + Seq::<char>::empty() + s =~= s);
    let r = spec_split_unquoted(s, sep);
    if f.current.len() > 0 {
        assert(r == f.parts.push(f.current));
        assert(r.drop_last() =~= f.parts);
        lemma_terminated_join(r, sep);
        assert(terminated(r, sep) == terminated(f.parts, sep) + f.current + seq![sep]);
        assert(join(r, sep) + seq![sep] == s + seq![sep]);
        assert(join(r, sep) =~= s) by {
            assert(join(r, sep) =~= (join(r, sep) + seq![sep]).drop_last());
            assert(s =~= (s + seq![sep]).drop_last());
        }
    } else {
        assert(r == f.parts);
        assert(terminated(f.parts, sep) + f.current =~= terminated(f.parts, sep));
        if r.len() > 0 {
            lemma_terminated_join(r, sep);
        } else {
            assert(join(r, sep) =~= s);
        }
    }
}

/// `s` ends with a separator that stands outside strings and brackets.
pub open spec fn ends_with_cut(s: Seq<char>, sep: char) -> bool {
    let before = split_run(s.drop_last(), split_start(), sep);
    s.len() > 0 && s.last() == sep && !before.in_string && before.depth == 0
}

/// Joining the parts of `split_unquoted` gives the text back exactly, unless
/// the text ends with a separator outside strings and brackets: then there
/// is at least one part, and the text is the parts joined, followed by that
/// separator.
pub proof fn lemma_split_unquoted_final_sep(s: Seq<char>, sep: char)
    requires
        sep != '"',
        sep != '[',
        sep != ']',
    ensures
        ends_with_cut(s, sep) ==> spec_split_unquoted(s, sep).len() > 0 && join(
            spec_split_unquoted(s, sep),
            sep,
        ) + seq![sep] == s,
        !ends_with_cut(s, sep) ==> join(spec_split_unquoted(s, sep), sep) == s,
{
    let f = split_run(s, split_start(), sep);
    let r = spec_split_unquoted(s, sep);
    lemma_split_run_text(s, split_start(), sep);
    assert(terminated(Seq::<Seq<char>>::empty(), sep) + Seq::<char>::empty() + s =~= s);
    if s.len() == 0 {
        assert(r =~= Seq::<Seq<char>>::empty());
        assert(join(r, sep) =~= s);
    } else {
        let c = s.last();
        let g = split_run(s.drop_last(), split_start(), sep);
        lemma_split_run_concat(s.drop_last(), seq![c], split_start(), sep);
        assert(s.drop_last() + seq![c] =~= s);
        let one = seq![c];
        assert(one.drop_first() =~= Seq::<char>::empty());
        assert(one[0] == c);
        assert(split_run(one.drop_first(), split_step(g, c, sep), sep) == split_step(g, c, sep));
        assert(split_run(one, g, sep) == split_step(g, c, sep));
        assert(f == split_step(g, c, sep));
        if ends_with_cut(s, sep) {
            assert(f.current == Seq::<char>::empty());
            assert(f.parts == g.parts.push(g.current));
            assert(r == f.parts);
            lemma_terminated_join(r, sep);
            assert(terminated(f.parts, sep) + f.current =~= terminated(f.parts, sep));
        } else {
            assert(f.current == g.current.push(c));
            assert(f.current.len() > 0);
            assert(r == f.parts.push(f.current));
            assert(r.drop_last() =~= f.parts);
            lemma_terminated_join(r, sep);
            assert(terminated(r, sep) == terminated(f.parts, sep) + f.current + seq![sep]);
            assert(join(r, sep) =~= s) by {
                assert(join(r, sep) =~= (join(r, sep) + seq![sep]).drop_last());
                assert(s =~= (s + seq![sep]).drop_last());
            }
        }
    }
}

/// Scanning `s` alone cuts nothing: it holds no separator outside strings
/// and brackets.
pub open spec fn uncut(s: Seq<char>, sep: char) -> bool {
    split_run(s, split_start(), sep).parts.len() == 0
}

/// Two scan states agree on strings, escapes and brackets.
pub open spec fn same_mode(a: SplitState, b: SplitState) -> bool {
    a.in_string == b.in_string && a.escaped == b.escaped && a.depth == b.depth
}

/// Every part cut so far scans alone without a cut, and the part being
/// read scans alone, without a cut, to the state's own mode.
pub open spec fn clean(st: SplitState, sep: char) -> bool {
    &&& !st.in_string ==> !st.escaped
    &&& forall|k: int| 0 <= k < st.parts.len() ==> uncut(#[trigger] st.parts[k], sep)
    &&& uncut(st.current, sep)
    &&& same_mode(split_run(st.current, split_start(), sep), st)
}

proof fn lemma_step_clean(st: SplitState, c: char, sep: char)
    requires
        clean(st, sep),
    ensures
        clean(split_step(st, c, sep), sep),
{
    let st2 = split_step(st, c, sep);
    let r = split_run(st.current, split_start(), sep);
    lemma_split_run_concat(st.current, seq![c], split_start(), sep);
    assert(split_run(seq![c], r, sep) == split_step(r, c, sep)) by {
        let one = seq![c];
        assert(one.drop_first() =~= Seq::<char>::empty());
        assert(one[0] == c);
        assert(split_run(one.drop_first(), split_step(r, c, sep), sep) == split_step(r, c, sep));
    }
    if st2.parts.len() == st.parts.len() + 1 {
        assert(st2.parts == st.parts.push(st.current));
        assert(st2.current == Seq::<char>::empty());
        assert(split_run(Seq::<char>::empty(), split_start(), sep) == split_start());
        assert forall|k: int| 0 <= k < st2.parts.len() implies uncut(#[trigger] st2.parts[k], sep) by {
            if k < st.parts.len() {
                assert(st2.parts[k] == st.parts[k]);
            }
        }
    } else {
        assert(st2.parts == st.parts);
        assert(st2.current == st.current.push(c));
        assert(st.current.push(c) =~= st.current + seq![c]);
    }
}

proof fn lemma_run_clean(s: Seq<char>, st: SplitState, sep: char)
    requires
        clean(st, sep),
    ensures
        clean(split_run(s, st, sep), sep),
    decreases s.len(),
{
    if s.len() > 0 {
        lemma_step_clean(st, s[0], sep);
        lemma_run_clean(s.drop_first(), split_step(st, s[0], sep), sep);
    }
}

/// No part `split_unquoted` cuts holds a separator outside strings and
/// brackets: scanning any part alone, from its own start, cuts nothing.
pub proof fn lemma_split_unquoted_parts_uncut(s: Seq<char>, sep: char)
    ensures
        forall|k: int|
            0 <= k < spec_split_unquoted(s, sep).len() ==> uncut(
                #[trigger] spec_split_unquoted(s, sep)[k],
                sep,
            ),
{
    assert(split_run(Seq::<char>::empty(), split_start(), sep) == split_start());
    assert(clean(split_start(), sep));
    lemma_run_clean(s, split_start(), sep);
    let f = split_run(s, split_start(), sep);
    let r = spec_split_unquoted(s, sep);
    assert forall|k: int| 0 <= k < r.len() implies uncut(#[trigger] r[k], sep) by {
        if k < f.parts.len() {
            assert(r[k] == f.parts[k]);
        } else {
            assert(r[k] == f.current);
        }
    }
}

// ---------------------------------------------------------------------
// Hexadecimal digits of either case
// ---------------------------------------------------------------------

proof fn lemma_hex_digit_either_case(c: char)
    ensures
        hex_digit_value(ascii_lower(c)) == hex_digit_value(c),
{
    if 'A' <= c && c <= 'Z' {
        assert(ascii_lower(c) as int == c as int + 32);
    }
}

proof fn lemma_hex_value_either_case(s: Seq<char>)
    ensures
        all_hex(lower(s)) == all_hex(s),
        all_hex(s) ==> hex_value(lower(s)) == hex_value(s),
    decreases s.len(),
{
    assert forall|i: int| 0 <= i < s.len() implies hex_digit_value(#[trigger] lower(s)[i])
        == hex_digit_value(s[i]) by {
        lemma_hex_digit_either_case(s[i]);
    }
    assert(lower(s).len() == s.len());
    if all_hex(s) {
        assert forall|i: int| 0 <= i < lower(s).len() implies #[trigger] hex_digit_value(
            lower(s)[i],
        ) is Some by {
            assert(hex_digit_value(s[i]) is Some);
        }
    }
    if all_hex(lower(s)) {
        assert forall|i: int| 0 <= i < s.len() implies #[trigger] hex_digit_value(s[i]) is Some by {
            assert(hex_digit_value(lower(s)[i]) is Some);
        }
    }
    if s.len() > 0 {
        assert(lower(s).drop_last() =~= lower(s.drop_last()));
        lemma_hex_value_either_case(s.drop_last());
        assert(lower(s).last() == lower(s)[s.len() - 1]);
        if all_hex(s) {
            assert(all_hex(s.drop_last()));
            assert(hex_digit_value(s.last()) is Some);
        }
    }
}

/// Hexadecimal text is read the same in either case, as
/// `u32::from_str_radix(h, 16)` reads it: `00E9` as `00e9`.
pub proof fn lemma_parse_hex_either_case(h: Seq<char>)
    ensures
        parse_hex_u32(lower(h)) == parse_hex_u32(h),
{
    let l = lower(h);
    if h.len() > 0 {
        assert(l[0] == ascii_lower(h[0]));
        if h[0] == '+' {
            assert(l.drop_first() =~= lower(h.drop_first()));
            lemma_hex_value_either_case(h.drop_first());
        } else {
            lemma_hex_value_either_case(h);
        }
    }
}

/// A `\u` escape reads the same character whatever the case of its
/// hexadecimal digits: `\u00E9` and `\u00e9` both stand for `é`.
pub proof fn lemma_unicode_escape_either_case(h: Seq<char>, t: Seq<char>)
    requires
        h.len() == 4,
    ensures
        decode(seq!['\\', 'u'] + lower(h) + t) == decode(seq!['\\', 'u'] + h + t),
{
    let a = seq!['\\', 'u'] + h + t;
    let b = seq!['\\', 'u'] + lower(h) + t;
    assert(hex_len(a) == 4);
    assert(hex_len(b) == 4);
    assert(a.subrange(2, 6) =~= h);
    assert(b.subrange(2, 6) =~= lower(h));
    assert(a.skip(6) =~= t);
    assert(b.skip(6) =~= t);
    lemma_parse_hex_either_case(h);
}

// ---------------------------------------------------------------------
// Arrays of strings with whitespace around the items
// ---------------------------------------------------------------------

/// JSON's whitespace: spaces, tabs, line feeds and carriage returns.
pub open spec fn json_ws(w: Seq<char>) -> bool {
    forall|i: int| 0 <= i < w.len() ==> #[trigger] w[i] == ' ' || w[i] == '\t' || w[i] == '\n' || w[i] == '\r'
}

/// A string item with whitespace before and after it.
pub open spec fn spaced_item(x: Seq<char>, w: Seq<char>) -> Seq<char> {
    w + spec_json_string(x) + w
}

pub open spec fn spaced_items(items: Seq<Seq<char>>, w: Seq<char>) -> Seq<Seq<char>> {
    items.map_values(|x: Seq<char>| spaced_item(x, w))
}

/// The items after the first, each preceded by `,`.
pub open spec fn spaced_tail(items: Seq<Seq<char>>, w: Seq<char>) -> Seq<char>
    decreases items.len(),
{
    if items.len() == 0 {
        Seq::empty()
    } else {
        seq![','] + spaced_item(items[0], w) + spaced_tail(items.drop_first(), w)
    }
}

/// An array of strings written with the whitespace `w` around each item, as
/// `[ "a" , "b" ]`, or `[` `w` `]` when empty.
pub open spec fn spaced_array(items: Seq<Seq<char>>, w: Seq<char>) -> Seq<char> {
    seq!['['] + (if items.len() == 0 {
        w
    } else {
        spaced_item(items[0], w) + spaced_tail(items.drop_first(), w)
    }) + seq![']']
}

proof fn lemma_json_ws_is_ws(w: Seq<char>)
    requires
        json_ws(w),
    ensures
        forall|i: int| 0 <= i < w.len() ==> is_ws(#[trigger] w[i]),
        forall|i: int|
            0 <= i < w.len() ==> #[trigger] w[i] != '"' && w[i] != '[' && w[i] != ']' && w[i] != ',',
{
}

proof fn lemma_run_spaced_item(x: Seq<char>, w: Seq<char>, st: SplitState)
    requires
        json_ws(w),
        !st.in_string,
        !st.escaped,
    ensures
        split_run(spaced_item(x, w), st, ',') == with_current(st, spaced_item(x, w)),
{
    lemma_json_ws_is_ws(w);
    let j = spec_json_string(x);
    lemma_split_run_concat(w + j, w, st, ',');
    lemma_split_run_concat(w, j, st, ',');
    lemma_run_plain(w, st, ',');
    let s1 = with_current(st, w);
    lemma_run_json_string(x, s1, ',');
    let s2 = with_current(s1, j);
    lemma_run_plain(w, s2, ',');
    assert(with_current(s2, w) == with_current(st, spaced_item(x, w))) by {
        assert(st.current + w + j + w =~= st.current + (w + j + w));
    }
}

proof fn lemma_run_spaced_tail(items: Seq<Seq<char>>, w: Seq<char>, st: SplitState)
    requires
        json_ws(w),
        !st.in_string,
        !st.escaped,
        st.depth == 0,
        items.len() > 0,
    ensures
        split_run(spaced_tail(items, w), st, ',') == (SplitState {
            parts: st.parts.push(st.current) + spaced_items(items.drop_last(), w),
            current: spaced_item(items.last(), w),
            ..st
        }),
    decreases items.len(),
{
    let j = spaced_item(items[0], w);
    let r = spaced_tail(items.drop_first(), w);
    assert(spaced_tail(items, w) == seq![','] + j + r);
    lemma_split_run_concat(seq![','] + j, r, st, ',');
    lemma_split_run_concat(seq![','], j, st, ',');
    lemma_run_sep(st, ',');
    let st1 = SplitState { parts: st.parts.push(st.current), current: Seq::empty(), ..st };
    lemma_run_spaced_item(items[0], w, st1);
    let st2 = with_current(st1, j);
    assert(st2.current =~= j);
    if items.len() == 1 {
        assert(items.drop_first() =~= Seq::<Seq<char>>::empty());
        assert(r =~= Seq::<char>::empty());
        assert(spaced_items(items.drop_last(), w) =~= Seq::<Seq<char>>::empty());
        assert(st1.parts + Seq::<Seq<char>>::empty() =~= st1.parts);
    } else {
        lemma_run_spaced_tail(items.drop_first(), w, st2);
        assert(st2.parts.push(st2.current) + spaced_items(items.drop_first().drop_last(), w)
            =~= st.parts.push(st.current) + spaced_items(items.drop_last(), w));
        assert(items.drop_first().last() == items.last());
    }
}

proof fn lemma_trim_spaced_item(x: Seq<char>, w: Seq<char>)
    requires
        json_ws(w),
    ensures
        trim(spaced_item(x, w)) == spec_json_string(x),
{
    lemma_json_ws_is_ws(w);
    let j = spec_json_string(x);
    lemma_json_string_shape(x);
    assert(spaced_item(x, w) == w + (j + w));
    lemma_trim_leading(w, j + w);
    lemma_trim_trailing(j, w);
    lemma_trim_noop(j);
}

proof fn lemma_parse_spaced_items(items: Seq<Seq<char>>, w: Seq<char>)
    requires
        json_ws(w),
    ensures
        parse_strings(spaced_items(items, w)) == Some(items),
    decreases items.len(),
{
    let m = spaced_items(items, w);
    if items.len() > 0 {
        lemma_trim_spaced_item(items[0], w);
        lemma_json_string_shape(items[0]);
        lemma_trim_noop(spec_json_string(items[0]));
        lemma_parse_json_string(items[0]);
        assert(m[0] == spaced_item(items[0], w));
        assert(m.drop_first() =~= spaced_items(items.drop_first(), w));
        lemma_parse_spaced_items(items.drop_first(), w);
        assert(seq![items[0]] + items.drop_first() =~= items);
    } else {
        assert(m =~= Seq::<Seq<char>>::empty());
    }
}

/// Reading an array of strings ignores JSON whitespace around its items,
/// as `json.dumps` writes them: `[ "a" , "b" ]` reads as `["a", "b"]`.
pub proof fn lemma_parse_spaced_array(items: Seq<Seq<char>>, w: Seq<char>)
    requires
        json_ws(w),
    ensures
        spec_parse_json_string_array(spaced_array(items, w)) == Some(items),
{
    lemma_json_ws_is_ws(w);
    let a = spaced_array(items, w);
    let body = if items.len() == 0 {
        w
    } else {
        spaced_item(items[0], w) + spaced_tail(items.drop_first(), w)
    };
    assert(a == seq!['['] + body + seq![']']);
    lemma_trim_noop(a);
    assert(a.subrange(1, a.len() - 1) =~= body);
    if items.len() == 0 {
        lemma_trim_leading(w, Seq::<char>::empty());
        assert(w + Seq::<char>::empty() =~= w);
        assert(trim(Seq::<char>::empty()) =~= Seq::<char>::empty());
    } else {
        let j0 = spec_json_string(items[0]);
        let rest = j0 + w + spaced_tail(items.drop_first(), w);
        assert(body =~= w + rest);
        lemma_trim_leading(w, rest);
        lemma_json_string_shape(items[0]);
        assert(rest[0] == '"');
        crate::text::lemma_ws_prefix_len(rest);
        crate::text::lemma_ws_suffix_len(rest);
        assert(trim(body).len() > 0) by {
            assert(crate::text::ws_prefix_len(rest) == 0);
            assert(rest.skip(0) =~= rest);
            if crate::text::ws_suffix_len(rest) == rest.len() {
                assert(is_ws(rest[0]));
            }
        }
        // splitting at the commas gives each spaced item
        let st0 = split_start();
        let i0 = spaced_item(items[0], w);
        let r = spaced_tail(items.drop_first(), w);
        lemma_split_run_concat(i0, r, st0, ',');
        lemma_run_spaced_item(items[0], w, st0);
        let st1 = with_current(st0, i0);
        assert(st1.current =~= i0);
        assert(i0.len() > 0);
        if items.len() == 1 {
            assert(r =~= Seq::<char>::empty());
            assert(split_run(r, st1, ',') == st1);
            assert(spaced_items(items, w) =~= seq![i0]);
            assert(Seq::<Seq<char>>::empty().push(i0) =~= seq![i0]);
        } else {
            lemma_run_spaced_tail(items.drop_first(), w, st1);
            assert(items.drop_first().last() == items.last());
            let il = spaced_item(items.last(), w);
            assert(il.len() > 0) by {
                lemma_json_string_shape(items.last());
            }
            assert((Seq::<Seq<char>>::empty().push(i0) + spaced_items(
                items.drop_first().drop_last(),
                w,
            )).push(il) =~= spaced_items(items, w));
        }
        assert(spec_split_unquoted(body, ',') == spaced_items(items, w));
        lemma_parse_spaced_items(items, w);
    }
}

} // verus!
