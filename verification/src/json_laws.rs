//! What reading gives back of what writing produced, for the JSON pieces:
//! strings, arrays of strings, and the top-level splitting of both.
use vstd::prelude::*;

use crate::json::{
    all_hex, colon_scan, decode, field_of, hex4, hex_digit, hex_digit_value, hex_len, hex_value,
    json_escape, json_escape_char, json_list_body, json_list_tail, parse_hex_u32, parse_strings,
    prepend, spec_find_unquoted_colon, spec_json_string, spec_json_string_array,
    spec_parse_json_string, spec_parse_json_string_array, spec_split_unquoted, split_run,
    split_start, split_step, SplitState,
};
use crate::text::{is_ws, lemma_trim_noop, shift, trim, ws_prefix_len};

verus! {

// ---------------------------------------------------------------------
// Strings
// ---------------------------------------------------------------------

proof fn lemma_hex_digit(d: int)
    requires
        0 <= d < 16,
    ensures
        hex_digit_value(hex_digit(d)) == Some(d),
        hex_digit(d) != '"' && hex_digit(d) != '\\' && hex_digit(d) != '+',
        !is_ws(hex_digit(d)),
        hex_digit(d) as int >= 0x20,
{
}

proof fn lemma_hex_value_push(s: Seq<char>, c: char)
    ensures
        hex_value(s.push(c)) == hex_value(s) * 16 + hex_digit_value(c)->0,
{
    assert(s.push(c).drop_last() =~= s);
}

proof fn lemma_hex4_value(v: int)
    requires
        0 <= v < 0x20,
    ensures
        parse_hex_u32(hex4(v)) == Some(v as u32),
{
    let h = hex4(v);
    lemma_hex_digit(0);
    lemma_hex_digit(v / 16);
    lemma_hex_digit(v % 16);
    assert((v / 4096) % 16 == 0);
    assert((v / 256) % 16 == 0);
    assert((v / 16) % 16 == v / 16);
    assert(all_hex(h));
    let e = Seq::<char>::empty();
    let h1 = e.push(h[0]);
    let h2 = h1.push(h[1]);
    let h3 = h2.push(h[2]);
    assert(h3.push(h[3]) =~= h);
    lemma_hex_value_push(e, h[0]);
    lemma_hex_value_push(h1, h[1]);
    lemma_hex_value_push(h2, h[2]);
    lemma_hex_value_push(h3, h[3]);
    assert(hex_value(h) == v);
}

/// Reading an escaped character gives the character back.
proof fn lemma_decode_escape_char(c: char, t: Seq<char>)
    ensures
        decode(json_escape_char(c) + t) == prepend(c, decode(t)),
{
    let s = json_escape_char(c) + t;
    if c == '"' || c == '\\' || c == '\n' || c == '\r' || c == '\t' {
        assert(s.skip(2) =~= t);
    } else if (c as u32) < 0x20 {
        assert((c as u32) as int == c as int);
        assert(hex_len(s) == 4);
        assert(s.subrange(2, 6) =~= hex4(c as int));
        lemma_hex4_value(c as int);
        assert(s.skip(6) =~= t);
        assert(((c as u32) as char) == c);
    } else {
        assert(s.drop_first() =~= t);
    }
}

/// Reading back the escaped body of a string gives the string.
pub proof fn lemma_decode_json_escape(s: Seq<char>)
    ensures
        decode(json_escape(s)) == Some(s),
    decreases s.len(),
{
    if s.len() > 0 {
        lemma_decode_escape_char(s[0], json_escape(s.drop_first()));
        lemma_decode_json_escape(s.drop_first());
        assert(seq![s[0]] + s.drop_first() =~= s);
    }
}

/// Text without backslashes reads as itself.
pub proof fn lemma_decode_plain(k: Seq<char>)
    requires
        forall|i: int| 0 <= i < k.len() ==> k[i] != '\\',
    ensures
        decode(k) == Some(k),
    decreases k.len(),
{
    if k.len() > 0 {
        lemma_decode_plain(k.drop_first());
        assert(seq![k[0]] + k.drop_first() =~= k);
    }
}

proof fn lemma_escape_char_no_lf(c: char)
    ensures
        forall|i: int|
            0 <= i < json_escape_char(c).len() ==> #[trigger] json_escape_char(c)[i] != '\n'
                && json_escape_char(c)[i] != '\r',
{
    if (c as u32) < 0x20 && c != '"' && c != '\\' && c != '\n' && c != '\r' && c != '\t' {
        assert((c as u32) as int == c as int);
        let v = c as int;
        lemma_hex_digit(v / 16);
        lemma_hex_digit(v % 16);
        lemma_hex_digit(0);
        assert((v / 4096) % 16 == 0);
        assert((v / 256) % 16 == 0);
        assert((v / 16) % 16 == v / 16);
    }
}

/// Escaped text holds neither a line feed nor a carriage return.
pub proof fn lemma_json_escape_chars(s: Seq<char>)
    ensures
        forall|i: int|
            0 <= i < json_escape(s).len() ==> #[trigger] json_escape(s)[i] != '\n'
                && json_escape(s)[i] != '\r',
    decreases s.len(),
{
    if s.len() > 0 {
        lemma_json_escape_chars(s.drop_first());
        lemma_escape_char_no_lf(s[0]);
        let e = json_escape_char(s[0]);
        let r = json_escape(s.drop_first());
        assert(json_escape(s) == e + r);
        assert forall|i: int| 0 <= i < json_escape(s).len() implies #[trigger] json_escape(s)[i]
            != '\n' && json_escape(s)[i] != '\r' by {
            if i < e.len() {
                assert(json_escape(s)[i] == e[i]);
            } else {
                assert(json_escape(s)[i] == r[i - e.len()]);
            }
        }
    }
}

/// A JSON string starts and ends with a quote and holds no line feed.
pub proof fn lemma_json_string_shape(s: Seq<char>)
    ensures
        spec_json_string(s).len() >= 2,
        spec_json_string(s)[0] == '"',
        spec_json_string(s).last() == '"',
        forall|i: int|
            0 <= i < spec_json_string(s).len() ==> #[trigger] spec_json_string(s)[i] != '\n'
                && spec_json_string(s)[i] != '\r',
{
    lemma_json_escape_chars(s);
}

proof fn lemma_escape_char_printable(c: char)
    ensures
        json_escape_char(c).len() > 0,
        forall|i: int|
            0 <= i < json_escape_char(c).len() ==> #[trigger] json_escape_char(c)[i] as int >= 0x20,
        forall|i: int|
            0 <= i < json_escape_char(c).len() && #[trigger] json_escape_char(c)[i] == '"' ==> i
                == 1 && json_escape_char(c)[0] == '\\',
{
    if (c as u32) < 0x20 && c != '"' && c != '\\' && c != '\n' && c != '\r' && c != '\t' {
        let v = c as int;
        lemma_hex_digit((v / 4096) % 16);
        lemma_hex_digit((v / 256) % 16);
        lemma_hex_digit((v / 16) % 16);
        lemma_hex_digit(v % 16);
    }
}

/// Escaped text holds only characters from the space up, and each quote in
/// it comes right after a backslash.
pub proof fn lemma_json_escape_printable(s: Seq<char>)
    ensures
        forall|i: int| 0 <= i < json_escape(s).len() ==> #[trigger] json_escape(s)[i] as int >= 0x20,
        forall|i: int|
            0 <= i < json_escape(s).len() && #[trigger] json_escape(s)[i] == '"' ==> i > 0
                && json_escape(s)[i - 1] == '\\',
    decreases s.len(),
{
    if s.len() > 0 {
        lemma_json_escape_printable(s.drop_first());
        lemma_escape_char_printable(s[0]);
        let e = json_escape_char(s[0]);
        let r = json_escape(s.drop_first());
        let j = json_escape(s);
        assert(j == e + r);
        assert forall|i: int| 0 <= i < j.len() implies #[trigger] j[i] as int >= 0x20 by {
            if i < e.len() {
                assert(j[i] == e[i]);
            } else {
                assert(j[i] == r[i - e.len()]);
            }
        }
        assert forall|i: int| 0 <= i < j.len() && #[trigger] j[i] == '"' implies i > 0 && j[i - 1]
            == '\\' by {
            if i < e.len() {
                assert(j[i] == e[i]);
                assert(j[i - 1] == e[i - 1]);
            } else {
                assert(j[i] == r[i - e.len()]);
                if i - e.len() > 0 {
                    assert(j[i - 1] == r[i - 1 - e.len()]);
                }
            }
        }
    }
}

/// A written JSON string holds only characters from the space up, and a
/// quote inside it, between the enclosing quotes, always comes right after
/// a backslash.
pub proof fn lemma_json_string_quotes(s: Seq<char>)
    ensures
        forall|i: int|
            0 <= i < spec_json_string(s).len() ==> #[trigger] spec_json_string(s)[i] as int >= 0x20,
        forall|i: int|
            0 < i < spec_json_string(s).len() - 1 && #[trigger] spec_json_string(s)[i] == '"' ==> i
                > 1 && spec_json_string(s)[i - 1] == '\\',
{
    lemma_json_escape_printable(s);
    let e = json_escape(s);
    let j = spec_json_string(s);
    assert forall|i: int| 0 <= i < j.len() implies #[trigger] j[i] as int >= 0x20 by {
        if 0 < i < j.len() - 1 {
            assert(j[i] == e[i - 1]);
        }
    }
    assert forall|i: int| 0 < i < j.len() - 1 && #[trigger] j[i] == '"' implies i > 1 && j[i - 1]
        == '\\' by {
        assert(j[i] == e[i - 1]);
        if i > 1 {
            assert(j[i - 1] == e[i - 2]);
        }
    }
}

/// How many backslashes stand right before index `i` of `s`.
pub open spec fn backslashes_before(s: Seq<char>, i: int) -> nat
    decreases i,
{
    if i <= 0 || i > s.len() {
        0
    } else if s[i - 1] == '\\' {
        1 + backslashes_before(s, i - 1)
    } else {
        0
    }
}

proof fn lemma_backslashes_prefix(a: Seq<char>, b: Seq<char>, i: int)
    requires
        0 <= i <= a.len(),
    ensures
        backslashes_before(a + b, i) == backslashes_before(a, i),
    decreases i,
{
    if i > 0 {
        assert((a + b)[i - 1] == a[i - 1]);
        lemma_backslashes_prefix(a, b, i - 1);
    }
}

proof fn lemma_backslashes_concat(a: Seq<char>, b: Seq<char>, j: int)
    requires
        0 <= j <= b.len(),
    ensures
        backslashes_before(a + b, a.len() + j) == if backslashes_before(b, j) == j {
            j + backslashes_before(a, a.len() as int)
        } else {
            backslashes_before(b, j) as int
        },
    decreases j,
{
    if j == 0 {
        lemma_backslashes_prefix(a, b, a.len() as int);
    } else {
        assert((a + b)[a.len() + j - 1] == b[j - 1]);
        lemma_backslashes_concat(a, b, j - 1);
        if b[j - 1] == '\\' {
            assert(backslashes_before(b, j - 1) <= j - 1) by {
                lemma_backslashes_bound(b, j - 1);
            }
        }
    }
}

proof fn lemma_backslashes_bound(s: Seq<char>, i: int)
    ensures
        backslashes_before(s, i) <= if i < 0 {
            0
        } else {
            i
        },
    decreases i,
{
    if i > 0 {
        lemma_backslashes_bound(s, i - 1);
    }
}

proof fn lemma_escape_char_backslashes(c: char)
    ensures
        backslashes_before(json_escape_char(c), json_escape_char(c).len() as int) % 2 == 0,
        forall|i: int|
            0 <= i < json_escape_char(c).len() && #[trigger] json_escape_char(c)[i] == '"' ==> i
                == 1 && backslashes_before(json_escape_char(c), 1) == 1,
{
    lemma_escape_char_printable(c);
    let e = json_escape_char(c);
    let n = e.len() as int;
    if c == '\\' {
        assert(e == seq!['\\', '\\']);
        assert(backslashes_before(e, 0) == 0);
        assert(backslashes_before(e, 1) == 1);
        assert(backslashes_before(e, 2) == 2);
    } else {
        assert(e[n - 1] != '\\') by {
            if (c as u32) < 0x20 && c != '"' && c != '\n' && c != '\r' && c != '\t' {
                let v = c as int;
                lemma_hex_digit(v % 16);
            }
        }
    }
    if c == '"' {
        assert(e == seq!['\\', '"']);
        assert(backslashes_before(e, 0) == 0);
        assert(backslashes_before(e, 1) == 1);
    }
}

/// Inside escaped text, each quote comes after an odd run of backslashes,
/// and the text ends after an even one.
pub proof fn lemma_json_escape_backslashes(s: Seq<char>)
    ensures
        backslashes_before(json_escape(s), json_escape(s).len() as int) % 2 == 0,
        forall|i: int|
            0 <= i < json_escape(s).len() && #[trigger] json_escape(s)[i] == '"'
                ==> backslashes_before(json_escape(s), i) % 2 == 1,
    decreases s.len(),
{
    if s.len() > 0 {
        lemma_json_escape_backslashes(s.drop_first());
        lemma_escape_char_backslashes(s[0]);
        let e = json_escape_char(s[0]);
        let r = json_escape(s.drop_first());
        let j = json_escape(s);
        assert(j == e + r);
        lemma_backslashes_concat(e, r, r.len() as int);
        assert forall|i: int| 0 <= i < j.len() && #[trigger] j[i] == '"' implies backslashes_before(
            j,
            i,
        ) % 2 == 1 by {
            if i < e.len() {
                assert(j[i] == e[i]);
                lemma_backslashes_prefix(e, r, i);
            } else {
                assert(j[i] == r[i - e.len()]);
                lemma_backslashes_concat(e, r, i - e.len());
                assert(backslashes_before(r, i - e.len()) % 2 == 1);
                assert(backslashes_before(r, i - e.len()) != i - e.len() || (i - e.len()) % 2
                    == 1);
            }
        }
    } else {
        assert(json_escape(s) =~= Seq::<char>::empty());
    }
}

/// A written JSON string never closes early: each quote strictly inside it
/// comes after an odd run of backslashes.
pub proof fn lemma_json_string_odd_backslashes(s: Seq<char>)
    ensures
        forall|i: int|
            0 < i < spec_json_string(s).len() - 1 && #[trigger] spec_json_string(s)[i] == '"'
                ==> backslashes_before(spec_json_string(s), i) % 2 == 1,
{
    lemma_json_escape_backslashes(s);
    let e = json_escape(s);
    let q = seq!['"'];
    let j = spec_json_string(s);
    assert(j == (q + e) + q);
    assert(backslashes_before(q, 1) == 0);
    assert forall|i: int| 0 < i < j.len() - 1 && #[trigger] j[i] == '"' implies backslashes_before(
        j,
        i,
    ) % 2 == 1 by {
        assert(j[i] == e[i - 1]);
        lemma_backslashes_prefix(q + e, q, i);
        lemma_backslashes_concat(q, e, i - 1);
    }
}

/// Reading a written JSON string gives the text back.
pub proof fn lemma_parse_json_string(s: Seq<char>)
    ensures
        spec_parse_json_string(spec_json_string(s)) == Some(s),
{
    let j = spec_json_string(s);
    lemma_json_string_shape(s);
    lemma_trim_noop(j);
    assert(j.subrange(1, j.len() - 1) =~= json_escape(s));
    lemma_decode_json_escape(s);
}

// ---------------------------------------------------------------------
// The splitting scan
// ---------------------------------------------------------------------

pub proof fn lemma_split_run_concat(a: Seq<char>, b: Seq<char>, st: SplitState, sep: char)
    ensures
        split_run(a + b, st, sep) == split_run(b, split_run(a, st, sep), sep),
    decreases a.len(),
{
    if a.len() == 0 {
        assert(a + b =~= b);
    } else {
        assert((a + b).drop_first() =~= a.drop_first() + b);
        assert((a + b)[0] == a[0]);
        lemma_split_run_concat(a.drop_first(), b, split_step(st, a[0], sep), sep);
    }
}

/// The scan state with `s` appended to the part being read.
pub open spec fn with_current(st: SplitState, s: Seq<char>) -> SplitState {
    SplitState { current: st.current + s, ..st }
}

/// Inside a string, text without quotes and backslashes is just read.
pub proof fn lemma_run_in_string_plain(k: Seq<char>, st: SplitState, sep: char)
    requires
        st.in_string,
        !st.escaped,
        forall|i: int| 0 <= i < k.len() ==> k[i] != '"' && k[i] != '\\',
    ensures
        split_run(k, st, sep) == with_current(st, k),
    decreases k.len(),
{
    if k.len() == 0 {
        assert(st.current + k =~= st.current);
    } else {
        let st1 = split_step(st, k[0], sep);
        assert(st.current.push(k[0]) =~= st.current + seq![k[0]]);
        assert(st1 == with_current(st, seq![k[0]]));
        lemma_run_in_string_plain(k.drop_first(), st1, sep);
        assert(st.current + seq![k[0]] + k.drop_first() =~= st.current + k);
    }
}

/// Inside a string, an escaped character is read without leaving it.
proof fn lemma_run_escape_char(c: char, st: SplitState, sep: char)
    requires
        st.in_string,
        !st.escaped,
    ensures
        split_run(json_escape_char(c), st, sep) == with_current(st, json_escape_char(c)),
{
    let e = json_escape_char(c);
    if c == '"' || c == '\\' || c == '\n' || c == '\r' || c == '\t' {
        let st1 = split_step(st, '\\', sep);
        let st2 = split_step(st1, e[1], sep);
        assert(e.drop_first().drop_first() =~= Seq::<char>::empty());
        assert(split_run(e, st, sep) == split_run(e.drop_first(), st1, sep));
        assert(split_run(e.drop_first(), st1, sep) == split_run(
            e.drop_first().drop_first(),
            st2,
            sep,
        ));
        assert(st2.current =~= st.current + e);
    } else if (c as u32) < 0x20 {
        let st1 = split_step(st, '\\', sep);
        let st2 = split_step(st1, 'u', sep);
        let h = hex4(c as int);
        lemma_hex_digit((c as int / 16) % 16);
        lemma_hex_digit(c as int % 16);
        lemma_hex_digit(0);
        assert((c as int / 4096) % 16 == 0);
        assert((c as int / 256) % 16 == 0);
        lemma_run_in_string_plain(h, st2, sep);
        assert(e =~= seq!['\\', 'u'] + h);
        assert(seq!['\\', 'u'] + h =~= seq!['\\'] + (seq!['u'] + h));
        lemma_split_run_concat(seq!['\\'], seq!['u'] + h, st, sep);
        lemma_split_run_concat(seq!['u'], h, st1, sep);
        assert(seq!['\\'].drop_first() =~= Seq::<char>::empty());
        assert(seq!['u'].drop_first() =~= Seq::<char>::empty());
        assert(split_run(seq!['\\'], st, sep) == split_run(Seq::<char>::empty(), st1, sep));
        assert(split_run(seq!['u'], st1, sep) == split_run(Seq::<char>::empty(), st2, sep));
        assert(st2.current + h =~= st.current + e);
    } else {
        assert(e.drop_first() =~= Seq::<char>::empty());
        assert(split_run(e, st, sep) == split_run(e.drop_first(), split_step(st, c, sep), sep));
        assert(st.current.push(c) =~= st.current + e);
    }
}

/// Inside a string, an escaped body is read without leaving it.
pub proof fn lemma_run_json_escape(s: Seq<char>, st: SplitState, sep: char)
    requires
        st.in_string,
        !st.escaped,
    ensures
        split_run(json_escape(s), st, sep) == with_current(st, json_escape(s)),
    decreases s.len(),
{
    if s.len() == 0 {
        assert(st.current + json_escape(s) =~= st.current);
    } else {
        let e = json_escape_char(s[0]);
        let r = json_escape(s.drop_first());
        lemma_split_run_concat(e, r, st, sep);
        lemma_run_escape_char(s[0], st, sep);
        lemma_run_json_escape(s.drop_first(), with_current(st, e), sep);
        assert(st.current + e + r =~= st.current + (e + r));
    }
}

/// Outside strings, a JSON string is read as part of the current part.
pub proof fn lemma_run_json_string(s: Seq<char>, st: SplitState, sep: char)
    requires
        !st.in_string,
        !st.escaped,
    ensures
        split_run(spec_json_string(s), st, sep) == with_current(st, spec_json_string(s)),
{
    let q = seq!['"'];
    let st1 = split_step(st, '"', sep);
    assert(split_run(q, st, sep) == split_run(q.drop_first(), st1, sep));
    assert(q.drop_first() =~= Seq::<char>::empty());
    lemma_split_run_concat(q, json_escape(s), st, sep);
    lemma_run_json_escape(s, st1, sep);
    let st2 = with_current(st1, json_escape(s));
    lemma_split_run_concat(q + json_escape(s), q, st, sep);
    assert(split_run(q, st2, sep) == split_run(q.drop_first(), split_step(st2, '"', sep), sep));
    assert(split_step(st2, '"', sep).current =~= st.current + spec_json_string(s));
}

/// Outside strings, a quoted text without quotes and backslashes is read
/// as part of the current part.
pub proof fn lemma_run_quoted_plain(k: Seq<char>, st: SplitState, sep: char)
    requires
        !st.in_string,
        !st.escaped,
        forall|i: int| 0 <= i < k.len() ==> k[i] != '"' && k[i] != '\\',
    ensures
        split_run(seq!['"'] + k + seq!['"'], st, sep) == with_current(st, seq!['"'] + k + seq!['"']),
{
    let q = seq!['"'];
    let st1 = split_step(st, '"', sep);
    assert(split_run(q, st, sep) == split_run(q.drop_first(), st1, sep));
    assert(q.drop_first() =~= Seq::<char>::empty());
    lemma_split_run_concat(q, k, st, sep);
    lemma_run_in_string_plain(k, st1, sep);
    let st2 = with_current(st1, k);
    lemma_split_run_concat(q + k, q, st, sep);
    assert(split_run(q, st2, sep) == split_run(q.drop_first(), split_step(st2, '"', sep), sep));
    assert(split_step(st2, '"', sep).current =~= st.current + (q + k + q));
}

/// Outside strings, text without quotes, brackets and separators is just
/// read.
pub proof fn lemma_run_plain(s: Seq<char>, st: SplitState, sep: char)
    requires
        !st.in_string,
        !st.escaped,
        forall|i: int|
            0 <= i < s.len() ==> s[i] != '"' && s[i] != '[' && s[i] != ']' && s[i] != sep,
    ensures
        split_run(s, st, sep) == with_current(st, s),
    decreases s.len(),
{
    if s.len() == 0 {
        assert(st.current + s =~= st.current);
    } else {
        let st1 = split_step(st, s[0], sep);
        assert(st.current.push(s[0]) =~= st.current + seq![s[0]]);
        assert(st1 == with_current(st, seq![s[0]]));
        lemma_run_plain(s.drop_first(), st1, sep);
        assert(st.current + seq![s[0]] + s.drop_first() =~= st.current + s);
    }
}

/// One character outside strings that is read as part of the current part.
pub proof fn lemma_run_one(c: char, st: SplitState, sep: char)
    requires
        !st.in_string,
        !st.escaped,
        c != '"' && c != '[' && c != ']' && (c != sep || st.depth > 0),
    ensures
        split_run(seq![c], st, sep) == with_current(st, seq![c]),
{
    assert(seq![c].drop_first() =~= Seq::<char>::empty());
    assert(split_run(seq![c], st, sep) == split_run(
        seq![c].drop_first(),
        split_step(st, c, sep),
        sep,
    ));
    assert(st.current.push(c) =~= st.current + seq![c]);
}

/// The scan state after a separator ends the current part.
pub open spec fn cut(st: SplitState) -> SplitState {
    SplitState { parts: st.parts.push(st.current), current: Seq::empty(), ..st }
}

/// Each item written as a JSON string.
pub open spec fn written(items: Seq<Seq<char>>) -> Seq<Seq<char>> {
    items.map_values(|x: Seq<char>| spec_json_string(x))
}

/// A separator at the top level ends the current part.
pub proof fn lemma_run_sep(st: SplitState, sep: char)
    requires
        !st.in_string,
        sep != '"' && sep != '[' && sep != ']',
        st.depth == 0,
    ensures
        split_run(seq![sep], st, sep) == cut(st),
{
    assert(seq![sep].drop_first() =~= Seq::<char>::empty());
    assert(split_run(seq![sep], st, sep) == split_run(
        seq![sep].drop_first(),
        split_step(st, sep, sep),
        sep,
    ));
}

/// Inside an array, the items after the first are read as part of the
/// current part.
proof fn lemma_run_list_tail_nested(items: Seq<Seq<char>>, st: SplitState, sep: char)
    requires
        !st.in_string,
        !st.escaped,
        st.depth > 0,
        sep != '"' && sep != '[' && sep != ']',
    ensures
        split_run(json_list_tail(items), st, sep) == with_current(st, json_list_tail(items)),
    decreases items.len(),
{
    if items.len() == 0 {
        assert(st.current + json_list_tail(items) =~= st.current);
    } else {
        let j = spec_json_string(items[0]);
        let r = json_list_tail(items.drop_first());
        assert(json_list_tail(items) == seq![','] + j + r);
        lemma_split_run_concat(seq![','] + j, r, st, sep);
        lemma_split_run_concat(seq![','], j, st, sep);
        lemma_run_one(',', st, sep);
        lemma_run_json_string(items[0], with_current(st, seq![',']), sep);
        let st2 = with_current(with_current(st, seq![',']), j);
        lemma_run_list_tail_nested(items.drop_first(), st2, sep);
        assert(st.current + seq![','] + j + r =~= st.current + json_list_tail(items));
    }
}

/// Outside strings, an array of strings is read as part of the current
/// part.
pub proof fn lemma_run_json_array(items: Seq<Seq<char>>, st: SplitState, sep: char)
    requires
        !st.in_string,
        !st.escaped,
        sep != '"' && sep != '[' && sep != ']',
    ensures
        split_run(spec_json_string_array(items), st, sep) == with_current(st, spec_json_string_array(items)),
{
    let a = spec_json_string_array(items);
    let open_st = split_step(st, '[', sep);
    assert(split_run(seq!['['], st, sep) == split_run(seq!['['].drop_first(), open_st, sep));
    assert(seq!['['].drop_first() =~= Seq::<char>::empty());
    let body = json_list_body(items);
    lemma_split_run_concat(seq!['['] + body, seq![']'], st, sep);
    lemma_split_run_concat(seq!['['], body, st, sep);
    let st_body = with_current(open_st, body);
    if items.len() == 0 {
        assert(body =~= Seq::<char>::empty());
        assert(split_run(body, open_st, sep) == open_st);
        assert(open_st.current + body =~= open_st.current);
    } else {
        let j = spec_json_string(items[0]);
        let r = json_list_tail(items.drop_first());
        lemma_split_run_concat(j, r, open_st, sep);
        lemma_run_json_string(items[0], open_st, sep);
        lemma_run_list_tail_nested(items.drop_first(), with_current(open_st, j), sep);
        assert(open_st.current + j + r =~= open_st.current + body);
    }
    assert(split_run(body, open_st, sep) == st_body);
    let close_st = split_step(st_body, ']', sep);
    assert(split_run(seq![']'], st_body, sep) == split_run(seq![']'].drop_first(), close_st, sep));
    assert(seq![']'].drop_first() =~= Seq::<char>::empty());
    assert(close_st.current =~= st.current + a);
    assert(seq!['['] + body + seq![']'] == a);
}

/// At the top level, the items after the first are cut into parts of
/// their own.
proof fn lemma_run_list_tail_top(items: Seq<Seq<char>>, st: SplitState)
    requires
        !st.in_string,
        !st.escaped,
        st.depth == 0,
        items.len() > 0,
    ensures
        split_run(json_list_tail(items), st, ',') == (SplitState {
            parts: st.parts.push(st.current) + written(items.drop_last()),
            current: spec_json_string(items.last()),
            ..st
        }),
    decreases items.len(),
{
    let j = spec_json_string(items[0]);
    let r = json_list_tail(items.drop_first());
    assert(json_list_tail(items) == seq![','] + j + r);
    lemma_split_run_concat(seq![','] + j, r, st, ',');
    lemma_split_run_concat(seq![','], j, st, ',');
    lemma_run_sep(st, ',');
    let st1 = SplitState { parts: st.parts.push(st.current), current: Seq::empty(), ..st };
    lemma_run_json_string(items[0], st1, ',');
    let st2 = with_current(st1, j);
    assert(st2.current =~= j);
    if items.len() == 1 {
        assert(items.drop_first() =~= Seq::<Seq<char>>::empty());
        assert(r =~= Seq::<char>::empty());
        assert(items.drop_last().map_values(|x: Seq<char>| spec_json_string(x)) =~= Seq::<
            Seq<char>,
        >::empty());
        assert(st1.parts + Seq::<Seq<char>>::empty() =~= st1.parts);
    } else {
        lemma_run_list_tail_top(items.drop_first(), st2);
        assert(st2.parts.push(st2.current) + items.drop_first().drop_last().map_values(
            |x: Seq<char>| spec_json_string(x),
        ) =~= st.parts.push(st.current) + items.drop_last().map_values(
            |x: Seq<char>| spec_json_string(x),
        ));
        assert(items.drop_first().last() == items.last());
    }
}

/// Splitting the body of a written array gives each written item.
proof fn lemma_split_list_body(items: Seq<Seq<char>>)
    requires
        items.len() > 0,
    ensures
        spec_split_unquoted(json_list_body(items), ',') == written(items),
{
    let j = spec_json_string(items[0]);
    let r = json_list_tail(items.drop_first());
    lemma_split_run_concat(j, r, split_start(), ',');
    lemma_run_json_string(items[0], split_start(), ',');
    let st1 = with_current(split_start(), j);
    assert(st1.current =~= j);
    lemma_json_string_shape(items.last());
    if items.len() == 1 {
        assert(r =~= Seq::<char>::empty());
        assert(split_run(r, st1, ',') == st1);
        assert(items.map_values(|x: Seq<char>| spec_json_string(x)) =~= seq![j]);
        assert(Seq::<Seq<char>>::empty().push(j) =~= seq![j]);
        lemma_json_string_shape(items[0]);
    } else {
        lemma_run_list_tail_top(items.drop_first(), st1);
        assert(items.drop_first().last() == items.last());
        assert(Seq::<Seq<char>>::empty().push(j) + items.drop_first().drop_last().map_values(
            |x: Seq<char>| spec_json_string(x),
        ) + seq![spec_json_string(items.last())] =~= items.map_values(|x: Seq<char>| spec_json_string(x)));
        assert((Seq::<Seq<char>>::empty().push(j) + items.drop_first().drop_last().map_values(
            |x: Seq<char>| spec_json_string(x),
        )).push(spec_json_string(items.last())) =~= items.map_values(|x: Seq<char>| spec_json_string(x)));
    }
}

proof fn lemma_parse_strings_written(items: Seq<Seq<char>>)
    ensures
        parse_strings(written(items)) == Some(items),
    decreases items.len(),
{
    let m = items.map_values(|x: Seq<char>| spec_json_string(x));
    if items.len() > 0 {
        lemma_json_string_shape(items[0]);
        lemma_trim_noop(spec_json_string(items[0]));
        lemma_parse_json_string(items[0]);
        assert(m.drop_first() =~= items.drop_first().map_values(|x: Seq<char>| spec_json_string(x)));
        lemma_parse_strings_written(items.drop_first());
        assert(seq![items[0]] + items.drop_first() =~= items);
    } else {
        assert(m =~= Seq::<Seq<char>>::empty());
    }
}

/// An array of strings starts with `[`, ends with `]` and holds no line
/// feed or carriage return.
pub proof fn lemma_json_array_shape(items: Seq<Seq<char>>)
    ensures
        spec_json_string_array(items).len() >= 2,
        spec_json_string_array(items)[0] == '[',
        spec_json_string_array(items).last() == ']',
        forall|i: int|
            0 <= i < spec_json_string_array(items).len() ==> #[trigger] spec_json_string_array(items)[i]
                != '\n' && spec_json_string_array(items)[i] != '\r',
{
    lemma_list_tail_no_lf(items);
    if items.len() > 0 {
        lemma_list_tail_no_lf(items.drop_first());
        lemma_json_string_shape(items[0]);
    }
}

proof fn lemma_list_tail_no_lf(items: Seq<Seq<char>>)
    ensures
        forall|i: int|
            0 <= i < json_list_tail(items).len() ==> #[trigger] json_list_tail(items)[i] != '\n'
                && json_list_tail(items)[i] != '\r',
    decreases items.len(),
{
    if items.len() > 0 {
        lemma_list_tail_no_lf(items.drop_first());
        lemma_json_string_shape(items[0]);
        let j = spec_json_string(items[0]);
        let r = json_list_tail(items.drop_first());
        let t = json_list_tail(items);
        assert(t == seq![','] + j + r);
        assert forall|i: int| 0 <= i < t.len() implies #[trigger] t[i] != '\n' && t[i] != '\r' by {
            if i == 0 {
            } else if i < 1 + j.len() {
                assert(t[i] == j[i - 1]);
            } else {
                assert(t[i] == r[i - 1 - j.len()]);
            }
        }
    }
}

/// Reading a written array of strings gives the strings back.
pub proof fn lemma_parse_json_string_array(items: Seq<Seq<char>>)
    ensures
        spec_parse_json_string_array(spec_json_string_array(items)) == Some(items),
{
    let a = spec_json_string_array(items);
    lemma_json_array_shape(items);
    lemma_trim_noop(a);
    let body = json_list_body(items);
    assert(a.subrange(1, a.len() - 1) =~= body);
    if items.len() == 0 {
        assert(body =~= Seq::<char>::empty());
        assert(trim(body).len() == 0);
    } else {
        lemma_json_string_shape(items[0]);
        assert(body[0] == '"');
        assert(ws_prefix_len(body) == 0);
        assert(body.skip(0) =~= body);
        assert(trim(body).len() > 0) by {
            crate::text::lemma_ws_suffix_len(body);
        }
        lemma_split_list_body(items);
        lemma_parse_strings_written(items);
    }
}

// ---------------------------------------------------------------------
// Finding the key's colon
// ---------------------------------------------------------------------

proof fn lemma_colon_scan_in_string_plain(k: Seq<char>, rest: Seq<char>)
    requires
        forall|i: int| 0 <= i < k.len() ==> k[i] != '"' && k[i] != '\\',
    ensures
        colon_scan(k + seq!['"'] + rest, true, false) == shift(
            colon_scan(rest, false, false),
            k.len() as int + 1,
        ),
    decreases k.len(),
{
    let s = k + seq!['"'] + rest;
    if k.len() == 0 {
        assert(s.drop_first() =~= rest);
    } else {
        assert(s.drop_first() =~= k.drop_first() + seq!['"'] + rest);
        lemma_colon_scan_in_string_plain(k.drop_first(), rest);
        crate::text::lemma_shift_shift(colon_scan(rest, false, false), k.len() as int, 1);
    }
}

/// In `"key":value`, the first colon outside strings is the one after the
/// key.
pub proof fn lemma_colon_after_key(k: Seq<char>, v: Seq<char>)
    requires
        forall|i: int| 0 <= i < k.len() ==> k[i] != '"' && k[i] != '\\',
    ensures
        spec_find_unquoted_colon(seq!['"'] + k + seq!['"'] + seq![':'] + v) == Some(k.len() as int + 2),
{
    let s = seq!['"'] + k + seq!['"'] + seq![':'] + v;
    assert(s.drop_first() =~= k + seq!['"'] + (seq![':'] + v));
    lemma_colon_scan_in_string_plain(k, seq![':'] + v);
    crate::text::lemma_shift_shift(colon_scan(seq![':'] + v, false, false), k.len() as int + 1, 1);
}

/// A written `"key":value` part reads as that key and value.
pub proof fn lemma_field_of(k: Seq<char>, v: Seq<char>)
    requires
        forall|i: int| 0 <= i < k.len() ==> k[i] != '"' && k[i] != '\\' && !is_ws(k[i]),
        trim(v) == v,
    ensures
        field_of(seq!['"'] + k + seq!['"'] + seq![':'] + v) == Some((k, v)),
{
    let q = seq!['"'] + k + seq!['"'];
    let s = q + seq![':'] + v;
    lemma_colon_after_key(k, v);
    assert(s.take(k.len() as int + 2) =~= q);
    assert(s.skip(k.len() as int + 3) =~= v);
    lemma_trim_noop(q);
    assert(q.subrange(1, q.len() - 1) =~= k);
    lemma_decode_plain(k);
}

} // verus!
