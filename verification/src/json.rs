//! The small JSON subset that `bkj` lines use: strings, flat arrays of
//! strings, and the splitting of a flat object or array at top-level
//! separators.
use vstd::prelude::*;

use crate::int_text::{digit_char, is_digit};
use crate::text::{
    chars_of, shift, sub_chars, trim, trim_bounds, trim_exec,
};

verus! {

// ---------------------------------------------------------------------
// Writing strings
// ---------------------------------------------------------------------

/// A lowercase hexadecimal digit.
pub open spec fn hex_digit(d: int) -> char {
    if d < 10 {
        digit_char(d)
    } else {
        (d + 87) as char
    }
}

/// Four lowercase hexadecimal digits, zero-padded: `format!("{:04x}", v)`
/// for `v < 0x10000`.
pub open spec fn hex4(v: int) -> Seq<char> {
    seq![hex_digit((v / 4096) % 16), hex_digit((v / 256) % 16), hex_digit((v / 16) % 16), hex_digit(v % 16)]
}

/// How one character is written inside a JSON string.
pub open spec fn json_escape_char(c: char) -> Seq<char> {
    if c == '"' {
        seq!['\\', '"']
    } else if c == '\\' {
        seq!['\\', '\\']
    } else if c == '\n' {
        seq!['\\', 'n']
    } else if c == '\r' {
        seq!['\\', 'r']
    } else if c == '\t' {
        seq!['\\', 't']
    } else if (c as u32) < 0x20 {
        seq!['\\', 'u'] + hex4(c as int)
    } else {
        seq![c]
    }
}

/// The escaped body of a JSON string.
pub open spec fn json_escape(s: Seq<char>) -> Seq<char>
    decreases s.len(),
{
    if s.len() == 0 {
        Seq::empty()
    } else {
        json_escape_char(s[0]) + json_escape(s.drop_first())
    }
}

/// A JSON string literal holding `s`.
pub open spec fn spec_json_string(s: Seq<char>) -> Seq<char> {
    seq!['"'] + json_escape(s) + seq!['"']
}

/// The items after the first of a JSON array, each preceded by `,`.
pub open spec fn json_list_tail(items: Seq<Seq<char>>) -> Seq<char>
    decreases items.len(),
{
    if items.len() == 0 {
        Seq::empty()
    } else {
        seq![','] + spec_json_string(items[0]) + json_list_tail(items.drop_first())
    }
}

/// The items of a JSON array of strings, separated by `,`.
pub open spec fn json_list_body(items: Seq<Seq<char>>) -> Seq<char> {
    if items.len() == 0 {
        Seq::empty()
    } else {
        spec_json_string(items[0]) + json_list_tail(items.drop_first())
    }
}

/// A JSON array of strings.
pub open spec fn spec_json_string_array(items: Seq<Seq<char>>) -> Seq<char> {
    seq!['['] + json_list_body(items) + seq![']']
}

fn hex_digit_exec(d: u32) -> (res: char)
    requires
        d < 16,
    ensures
        res == hex_digit(d as int),
{
    if d < 10 {
        let b: u8 = 48u8 + (d as u8);
        b as char
    } else {
        let b: u8 = 87u8 + (d as u8);
        b as char
    }
}

/// Appends the escaped form of one character.
fn json_escape_char_into(out: &mut Vec<char>, c: char)
    ensures
        final(out)@ == old(out)@ + json_escape_char(c),
{
    let ghost start = out@;
    if c == '"' {
        out.push('\\');
        out.push('"');
    } else if c == '\\' {
        out.push('\\');
        out.push('\\');
    } else if c == '\n' {
        out.push('\\');
        out.push('n');
    } else if c == '\r' {
        out.push('\\');
        out.push('r');
    } else if c == '\t' {
        out.push('\\');
        out.push('t');
    } else if (c as u32) < 0x20 {
        let v = c as u32;
        out.push('\\');
        out.push('u');
        out.push(hex_digit_exec((v / 4096) % 16));
        out.push(hex_digit_exec((v / 256) % 16));
        out.push(hex_digit_exec((v / 16) % 16));
        out.push(hex_digit_exec(v % 16));
    } else {
        out.push(c);
    }
    assert(out@ =~= start + json_escape_char(c));
}

/// Appends `s` as a JSON string literal.
pub fn json_string(out: &mut Vec<char>, s: &[char])
    ensures
        final(out)@ == old(out)@ + spec_json_string(s@),
{
    let ghost start = out@;
    out.push('"');
    let mut i: usize = 0;
    assert(s@.skip(0) =~= s@);
    while i < s.len()
        invariant
            i <= s.len(),
            start + spec_json_string(s@) == out@ + json_escape(s@.skip(i as int)) + seq!['"'],
        decreases s.len() - i,
    {
        let ghost before = out@;
        json_escape_char_into(out, s[i]);
        assert(s@.skip(i as int).drop_first() =~= s@.skip(i + 1));
        assert(before + json_escape(s@.skip(i as int)) + seq!['"'] =~= before + json_escape_char(
            s@[i as int],
        ) + json_escape(s@.skip(i + 1)) + seq!['"']);
        i += 1;
    }
    out.push('"');
    assert(s@.skip(i as int) =~= Seq::<char>::empty());
    assert(out@ =~= start + spec_json_string(s@));
}

/// Appends `items` as a JSON array of strings.
pub fn json_string_array(out: &mut Vec<char>, items: &[String])
    ensures
        final(out)@ == old(out)@ + spec_json_string_array(items@.map_values(|x: String| x@)),
{
    let ghost v = items@.map_values(|x: String| x@);
    let ghost start = out@;
    out.push('[');
    let mut i: usize = 0;
    assert(v.skip(0) =~= v);
    while i < items.len()
        invariant
            i <= items.len(),
            v == items@.map_values(|x: String| x@),
            i == 0 ==> out@ == start + seq!['['],
            start + spec_json_string_array(v) == out@ + (if i == 0 {
                json_list_body(v)
            } else {
                json_list_tail(v.skip(i as int))
            }) + seq![']'],
        decreases items.len() - i,
    {
        let ghost before = out@;
        let ghost rest = v.skip(i as int);
        assert(rest.drop_first() =~= v.skip(i + 1));
        assert(rest[0] == items@[i as int]@);
        if i > 0 {
            out.push(',');
        }
        let cs = chars_of(items[i].as_str());
        json_string(out, &cs);
        if i == 0 {
            assert(before + json_list_body(v) + seq![']'] =~= before + spec_json_string(rest[0])
                + json_list_tail(v.skip(i + 1)) + seq![']']);
        } else {
            assert(before + json_list_tail(rest) + seq![']'] =~= before + seq![','] + spec_json_string(
                rest[0],
            ) + json_list_tail(v.skip(i + 1)) + seq![']']);
        }
        i += 1;
    }
    out.push(']');
    if items.len() == 0 {
        assert(v =~= Seq::<Seq<char>>::empty());
        assert(out@ =~= start + spec_json_string_array(v));
    } else {
        assert(v.skip(i as int) =~= Seq::<Seq<char>>::empty());
        assert(out@ =~= start + spec_json_string_array(v));
    }
}

// ---------------------------------------------------------------------
// Reading strings
// ---------------------------------------------------------------------

pub open spec fn hex_digit_value(c: char) -> Option<int> {
    if is_digit(c) {
        Some(c as int - 48)
    } else if 'a' <= c && c <= 'f' {
        Some(c as int - 87)
    } else if 'A' <= c && c <= 'F' {
        Some(c as int - 55)
    } else {
        None
    }
}

pub open spec fn all_hex(s: Seq<char>) -> bool {
    forall|i: int| 0 <= i < s.len() ==> #[trigger] hex_digit_value(s[i]) is Some
}

/// The number written by the hexadecimal digits `s`.
pub open spec fn hex_value(s: Seq<char>) -> int
    decreases s.len(),
{
    if s.len() == 0 {
        0
    } else {
        hex_value(s.drop_last()) * 16 + hex_digit_value(s.last())->0
    }
}

/// `u32::from_str_radix(h, 16)`: an optional `+`, then one or more
/// hexadecimal digits of either case, whose value must fit in a `u32`.
pub open spec fn parse_hex_u32(h: Seq<char>) -> Option<u32> {
    if h.len() == 0 || (h.len() == 1 && (h[0] == '+' || h[0] == '-')) {
        None
    } else {
        let ds = if h[0] == '+' {
            h.drop_first()
        } else {
            h
        };
        if all_hex(ds) && hex_value(ds) <= u32::MAX {
            Some(hex_value(ds) as u32)
        } else {
            None
        }
    }
}

/// `char::from_u32`: the Unicode scalar values are the chars.
pub open spec fn char_from_u32(v: u32) -> Option<char> {
    if v < 0xD800 || (0xE000 <= v && v <= 0x10FFFF) {
        Some(v as char)
    } else {
        None
    }
}

/// The character that a backslash escape other than `\u` stands for.
pub open spec fn unescape_json_char(e: char) -> char {
    if e == 'n' {
        '\n'
    } else if e == 'r' {
        '\r'
    } else if e == 't' {
        '\t'
    } else {
        e
    }
}

pub open spec fn prepend(c: char, o: Option<Seq<char>>) -> Option<Seq<char>> {
    match o {
        Some(r) => Some(seq![c] + r),
        None => None,
    }
}

/// How many characters a `\u` escape at the front of `t` reads after `\u`:
/// up to four.
pub open spec fn hex_len(t: Seq<char>) -> int {
    if t.len() - 2 < 4 {
        t.len() - 2
    } else {
        4
    }
}

/// The text that the body of a JSON string stands for, if its escapes are
/// well formed.
pub open spec fn decode(t: Seq<char>) -> Option<Seq<char>>
    decreases t.len(),
{
    if t.len() == 0 {
        Some(Seq::empty())
    } else if t[0] != '\\' {
        prepend(t[0], decode(t.drop_first()))
    } else if t.len() < 2 {
        None
    } else if t[1] == 'u' {
        let n = hex_len(t);
        match parse_hex_u32(t.subrange(2, 2 + n)) {
            Some(code) => match char_from_u32(code) {
                Some(ch) => prepend(ch, decode(t.skip(2 + n))),
                None => None,
            },
            None => None,
        }
    } else {
        prepend(unescape_json_char(t[1]), decode(t.skip(2)))
    }
}

/// A JSON string literal, surrounding whitespace allowed, read back.
pub open spec fn spec_parse_json_string(s: Seq<char>) -> Option<Seq<char>> {
    let t = trim(s);
    if t.len() >= 2 && t[0] == '"' && t.last() == '"' {
        decode(t.subrange(1, t.len() - 1))
    } else {
        None
    }
}

/// `char::from_u32`. The contract states what its documentation gives:
/// the char with code `v` when `v` is a Unicode scalar value (below
/// `0xD800`, or from `0xE000` through `0x10FFFF`), and `None` otherwise.
#[verifier::external_body]
fn char_from_u32_exec(v: u32) -> (res: Option<char>)
    ensures
        res == char_from_u32(v),
{
    char::from_u32(v)
}

fn hex_digit_value_exec(c: char) -> (res: Option<u32>)
    ensures
        match res {
            Some(d) => hex_digit_value(c) == Some(d as int) && d < 16,
            None => hex_digit_value(c) is None,
        },
{
    if '0' <= c && c <= '9' {
        Some((c as u32) - 48)
    } else if 'a' <= c && c <= 'f' {
        Some((c as u32) - 87)
    } else if 'A' <= c && c <= 'F' {
        Some((c as u32) - 55)
    } else {
        None
    }
}

/// `u32::from_str_radix(s[from..to], 16)`, for at most four characters.
fn parse_hex_u32_exec(s: &[char], from: usize, to: usize) -> (res: Option<u32>)
    requires
        from <= to <= s.len(),
        to - from <= 4,
    ensures
        res == parse_hex_u32(s@.subrange(from as int, to as int)),
{
    let ghost h = s@.subrange(from as int, to as int);
    if from == to || (to - from == 1 && (s[from] == '+' || s[from] == '-')) {
        return None;
    }
    let start = if s[from] == '+' {
        from + 1
    } else {
        from
    };
    let ghost ds = if h[0] == '+' {
        h.drop_first()
    } else {
        h
    };
    assert(ds =~= s@.subrange(start as int, to as int));
    let mut acc: u32 = 0;
    let mut i = start;
    assert(ds.take(0) =~= Seq::<char>::empty());
    while i < to
        invariant
            from <= start <= i <= to <= s.len(),
            to - start <= 4,
            h == s@.subrange(from as int, to as int),
            !(h.len() == 0 || (h.len() == 1 && (h[0] == '+' || h[0] == '-'))),
            ds == (if h[0] == '+' {
                h.drop_first()
            } else {
                h
            }),
            ds == s@.subrange(start as int, to as int),
            all_hex(ds.take(i - start)),
            acc as int == hex_value(ds.take(i - start)),
            acc < pow16(i - start),
        decreases to - i,
    {
        match hex_digit_value_exec(s[i]) {
            Some(d) => {
                let ghost pre = ds.take(i - start);
                assert(ds.take(i - start + 1) =~= pre.push(s@[i as int]));
                assert(ds.take(i - start + 1).drop_last() =~= pre);
                proof {
                    lemma_pow16_step(i - start);
                    assert(acc * 16 + d < pow16(i - start) * 16) by (nonlinear_arith)
                        requires
                            acc < pow16(i - start),
                            d < 16,
                    ;
                }
                acc = acc * 16 + d;
                i += 1;
            },
            None => {
                assert(ds[i - start] == s@[i as int]);
                return None;
            },
        }
    }
    assert(ds.take(i - start) =~= ds);
    Some(acc)
}

pub open spec fn pow16(n: int) -> int
    decreases n,
{
    if n <= 0 {
        1
    } else {
        16 * pow16(n - 1)
    }
}

proof fn lemma_pow16_step(n: int)
    requires
        0 <= n <= 3,
    ensures
        pow16(n + 1) == 16 * pow16(n),
        pow16(n + 1) <= 65536,
{
    reveal_with_fuel(pow16, 5);
}

/// Decodes the body `t[from..to]` of a JSON string.
fn decode_exec(t: &[char], from: usize, to: usize) -> (res: Option<Vec<char>>)
    requires
        from <= to <= t.len(),
    ensures
        match res {
            Some(v) => decode(t@.subrange(from as int, to as int)) == Some(v@),
            None => decode(t@.subrange(from as int, to as int)) is None,
        },
{
    let ghost whole = t@.subrange(from as int, to as int);
    let mut out: Vec<char> = Vec::new();
    let mut i = from;
    assert(t@.subrange(i as int, to as int) =~= whole);
    assert(Seq::<char>::empty() + whole =~= whole);
    while i < to
        invariant
            from <= i <= to <= t.len(),
            whole == t@.subrange(from as int, to as int),
            decode(whole) == (match decode(t@.subrange(i as int, to as int)) {
                Some(r) => Some(out@ + r),
                None => None,
            }),
        decreases to - i,
    {
        let ghost rest = t@.subrange(i as int, to as int);
        let ghost before = out@;
        let c = t[i];
        if c != '\\' {
            out.push(c);
            assert(rest.drop_first() =~= t@.subrange(i + 1, to as int));
            proof {
                match decode(rest.drop_first()) {
                    Some(r) => {
                        assert(before + (seq![c] + r) =~= before.push(c) + r);
                    },
                    None => {},
                }
            }
            i += 1;
        } else if to - i < 2 {
            return None;
        } else if t[i + 1] == 'u' {
            let n: usize = if to - i - 2 < 4 {
                to - i - 2
            } else {
                4
            };
            assert(rest.subrange(2, 2 + n) =~= t@.subrange(i + 2, i + 2 + n));
            match parse_hex_u32_exec(t, i + 2, i + 2 + n) {
                Some(code) => match char_from_u32_exec(code) {
                    Some(ch) => {
                        out.push(ch);
                        assert(rest.skip(2 + n) =~= t@.subrange(i + 2 + n, to as int));
                        proof {
                            match decode(rest.skip(2 + n)) {
                                Some(r) => {
                                    assert(before + (seq![ch] + r) =~= before.push(ch) + r);
                                },
                                None => {},
                            }
                        }
                        i += 2 + n;
                    },
                    None => {
                        return None;
                    },
                },
                None => {
                    return None;
                },
            }
        } else {
            let e = t[i + 1];
            let u = if e == 'n' {
                '\n'
            } else if e == 'r' {
                '\r'
            } else if e == 't' {
                '\t'
            } else {
                e
            };
            out.push(u);
            assert(rest.skip(2) =~= t@.subrange(i + 2, to as int));
            proof {
                match decode(rest.skip(2)) {
                    Some(r) => {
                        assert(before + (seq![u] + r) =~= before.push(u) + r);
                    },
                    None => {},
                }
            }
            i += 2;
        }
    }
    assert(t@.subrange(i as int, to as int) =~= Seq::<char>::empty());
    assert(out@ + Seq::<char>::empty() =~= out@);
    Some(out)
}

/// Reads a JSON string literal, surrounding whitespace allowed.
pub fn parse_json_string(s: &[char]) -> (res: Option<Vec<char>>)
    ensures
        match res {
            Some(v) => spec_parse_json_string(s@) == Some(v@),
            None => spec_parse_json_string(s@) is None,
        },
{
    let (a, b) = trim_bounds(s);
    let ghost t = trim(s@);
    if b - a >= 2 && s[a] == '"' && s[b - 1] == '"' {
        assert(t[0] == s@[a as int]);
        assert(t.last() == s@[b - 1]);
        assert(t.subrange(1, t.len() - 1) =~= s@.subrange(a + 1, b - 1));
        decode_exec(s, a + 1, b - 1)
    } else {
        proof {
            if t.len() >= 2 {
                assert(t[0] == s@[a as int]);
                assert(t.last() == s@[b - 1]);
            }
        }
        None
    }
}

// ---------------------------------------------------------------------
// Splitting at top-level separators
// ---------------------------------------------------------------------

/// Where a left-to-right scan stands: the parts cut so far, the part being
/// read, whether it is inside a string (and just after a backslash there),
/// and how many `[` are open.
pub struct SplitState {
    pub parts: Seq<Seq<char>>,
    pub current: Seq<char>,
    pub in_string: bool,
    pub escaped: bool,
    pub depth: nat,
}

pub open spec fn split_start() -> SplitState {
    SplitState {
        parts: Seq::empty(),
        current: Seq::empty(),
        in_string: false,
        escaped: false,
        depth: 0,
    }
}

/// One character of the scan.
pub open spec fn split_step(st: SplitState, c: char, sep: char) -> SplitState {
    if st.in_string {
        SplitState {
            parts: st.parts,
            current: st.current.push(c),
            in_string: st.escaped || c != '"',
            escaped: !st.escaped && c == '\\',
            depth: st.depth,
        }
    } else if c == '"' {
        SplitState { current: st.current.push(c), in_string: true, ..st }
    } else if c == '[' {
        SplitState { current: st.current.push(c), depth: st.depth + 1, ..st }
    } else if c == ']' {
        SplitState {
            current: st.current.push(c),
            depth: if st.depth > 0 {
                (st.depth - 1) as nat
            } else {
                0
            },
            ..st
        }
    } else if c == sep && st.depth == 0 {
        SplitState { parts: st.parts.push(st.current), current: Seq::empty(), ..st }
    } else {
        SplitState { current: st.current.push(c), ..st }
    }
}

/// The scan over all of `s`.
pub open spec fn split_run(s: Seq<char>, st: SplitState, sep: char) -> SplitState
    decreases s.len(),
{
    if s.len() == 0 {
        st
    } else {
        split_run(s.drop_first(), split_step(st, s[0], sep), sep)
    }
}

/// `s` cut at each `sep` outside strings and arrays; a trailing empty part
/// is dropped.
pub open spec fn spec_split_unquoted(s: Seq<char>, sep: char) -> Seq<Seq<char>> {
    let f = split_run(s, split_start(), sep);
    if f.current.len() > 0 {
        f.parts.push(f.current)
    } else {
        f.parts
    }
}

pub open spec fn chars_view(v: Seq<Vec<char>>) -> Seq<Seq<char>> {
    v.map_values(|x: Vec<char>| x@)
}

/// Cuts `s` at each `sep` outside strings and arrays.
pub fn split_unquoted(s: &[char], sep: char) -> (res: Vec<Vec<char>>)
    ensures
        chars_view(res@) == spec_split_unquoted(s@, sep),
{
    let mut parts: Vec<Vec<char>> = Vec::new();
    let mut current: Vec<char> = Vec::new();
    let mut in_string = false;
    let mut escaped = false;
    let mut depth: usize = 0;
    let mut i: usize = 0;
    assert(s@.skip(0) =~= s@);
    assert(chars_view(parts@) =~= Seq::<Seq<char>>::empty());
    while i < s.len()
        invariant
            i <= s.len(),
            depth <= i,
            split_run(s@, split_start(), sep) == split_run(
                s@.skip(i as int),
                SplitState {
                    parts: chars_view(parts@),
                    current: current@,
                    in_string,
                    escaped,
                    depth: depth as nat,
                },
                sep,
            ),
        decreases s.len() - i,
    {
        let c = s[i];
        let ghost st = SplitState {
            parts: chars_view(parts@),
            current: current@,
            in_string,
            escaped,
            depth: depth as nat,
        };
        let ghost next = split_step(st, c, sep);
        if in_string {
            current.push(c);
            if escaped {
                escaped = false;
            } else if c == '\\' {
                escaped = true;
            } else if c == '"' {
                in_string = false;
            }
        } else if c == '"' {
            in_string = true;
            current.push(c);
        } else if c == '[' {
            depth += 1;
            current.push(c);
        } else if c == ']' {
            if depth > 0 {
                depth -= 1;
            }
            current.push(c);
        } else if c == sep && depth == 0 {
            parts.push(current);
            current = Vec::new();
        } else {
            current.push(c);
        }
        assert(s@.skip(i as int).drop_first() =~= s@.skip(i + 1));
        assert(chars_view(parts@) =~= next.parts);
        assert(current@ =~= next.current);
        i += 1;
    }
    let ghost f = split_run(s@, split_start(), sep);
    assert(s@.skip(i as int) =~= Seq::<char>::empty());
    if current.len() > 0 {
        parts.push(current);
        assert(chars_view(parts@) =~= f.parts.push(f.current));
    }
    parts
}

/// The index of the first `:` outside strings, scanning with the given
/// string state.
pub open spec fn colon_scan(s: Seq<char>, in_string: bool, escaped: bool) -> Option<int>
    decreases s.len(),
{
    if s.len() == 0 {
        None
    } else if in_string {
        shift(colon_scan(s.drop_first(), escaped || s[0] != '"', !escaped && s[0] == '\\'), 1)
    } else if s[0] == '"' {
        shift(colon_scan(s.drop_first(), true, false), 1)
    } else if s[0] == ':' {
        Some(0)
    } else {
        shift(colon_scan(s.drop_first(), false, false), 1)
    }
}

/// The index of the first `:` outside strings.
pub open spec fn spec_find_unquoted_colon(s: Seq<char>) -> Option<int> {
    colon_scan(s, false, false)
}

pub fn find_unquoted_colon(s: &[char]) -> (res: Option<usize>)
    ensures
        crate::text::opt_int(res) == spec_find_unquoted_colon(s@),
{
    let mut in_string = false;
    let mut escaped = false;
    let mut i: usize = 0;
    assert(s@.skip(0) =~= s@);
    while i < s.len()
        invariant
            i <= s.len(),
            !in_string ==> !escaped,
            spec_find_unquoted_colon(s@) == shift(
                colon_scan(s@.skip(i as int), in_string, escaped),
                i as int,
            ),
        decreases s.len() - i,
    {
        let c = s[i];
        assert(s@.skip(i as int).drop_first() =~= s@.skip(i + 1));
        assert(s@.skip(i as int)[0] == c);
        proof {
            let e = escaped;
            crate::text::lemma_shift_shift(
                colon_scan(s@.skip(i + 1), e || c != '"', !e && c == '\\'),
                1,
                i as int,
            );
            crate::text::lemma_shift_shift(colon_scan(s@.skip(i + 1), true, false), 1, i as int);
            crate::text::lemma_shift_shift(colon_scan(s@.skip(i + 1), false, false), 1, i as int);
        }
        if in_string {
            let e = escaped;
            escaped = !e && c == '\\';
            in_string = e || c != '"';
        } else if c == '"' {
            in_string = true;
        } else if c == ':' {
            return Some(i);
        }
        i += 1;
    }
    None
}

// ---------------------------------------------------------------------
// Fields of a flat object, items of a flat array
// ---------------------------------------------------------------------

/// A `"key": value` part of an object: the key read as a JSON string and
/// the value's raw text, trimmed.
pub open spec fn field_of(part: Seq<char>) -> Option<(Seq<char>, Seq<char>)> {
    match spec_find_unquoted_colon(part) {
        Some(colon) => match spec_parse_json_string(trim(part.take(colon))) {
            Some(key) => Some((key, trim(part.skip(colon + 1)))),
            None => None,
        },
        None => None,
    }
}

/// The well-formed fields among `parts`, in order.
pub open spec fn fields_of(parts: Seq<Seq<char>>) -> Seq<(Seq<char>, Seq<char>)>
    decreases parts.len(),
{
    if parts.len() == 0 {
        Seq::empty()
    } else {
        (match field_of(parts[0]) {
            Some(f) => seq![f],
            None => Seq::empty(),
        }) + fields_of(parts.drop_first())
    }
}

/// The `(key, raw value)` pairs inside a flat `{...}` object.
pub open spec fn spec_split_json_fields(inner: Seq<char>) -> Seq<(Seq<char>, Seq<char>)> {
    fields_of(spec_split_unquoted(inner, ','))
}

pub open spec fn fields_view(v: Seq<(Vec<char>, Vec<char>)>) -> Seq<(Seq<char>, Seq<char>)> {
    v.map_values(|p: (Vec<char>, Vec<char>)| (p.0@, p.1@))
}

fn field_of_exec(part: &[char]) -> (res: Option<(Vec<char>, Vec<char>)>)
    ensures
        match res {
            Some(p) => field_of(part@) == Some((p.0@, p.1@)),
            None => field_of(part@) is None,
        },
{
    let colon = match find_unquoted_colon(part) {
        Some(c) => c,
        None => return None,
    };
    proof {
        lemma_colon_scan_bound(part@, false, false);
    }
    assert(colon < part.len());
    let head = sub_chars(part, 0, colon);
    assert(head@ =~= part@.take(colon as int));
    let head_t = trim_exec(&head);
    let key = match parse_json_string(&head_t) {
        Some(k) => k,
        None => return None,
    };
    let tail = sub_chars(part, colon + 1, part.len());
    assert(tail@ =~= part@.skip(colon + 1));
    let value = trim_exec(&tail);
    Some((key, value))
}

/// Splits the inside of a flat `{...}` object into `(key, raw value)`
/// pairs.
pub fn split_json_fields(inner: &[char]) -> (res: Vec<(Vec<char>, Vec<char>)>)
    ensures
        fields_view(res@) == spec_split_json_fields(inner@),
{
    let parts = split_unquoted(inner, ',');
    let ghost pv = chars_view(parts@);
    let mut res: Vec<(Vec<char>, Vec<char>)> = Vec::new();
    let mut i: usize = 0;
    assert(pv.skip(0) =~= pv);
    assert(fields_view(res@) =~= Seq::<(Seq<char>, Seq<char>)>::empty());
    while i < parts.len()
        invariant
            i <= parts.len(),
            pv == chars_view(parts@),
            spec_split_json_fields(inner@) == fields_view(res@) + fields_of(pv.skip(i as int)),
        decreases parts.len() - i,
    {
        let ghost before = fields_view(res@);
        let ghost rest = pv.skip(i as int);
        assert(rest[0] == parts@[i as int]@);
        assert(rest.drop_first() =~= pv.skip(i + 1));
        match field_of_exec(&parts[i]) {
            Some(p) => {
                res.push(p);
                assert(fields_view(res@) =~= before.push((p.0@, p.1@)));
                assert(before + fields_of(rest) =~= before.push((p.0@, p.1@)) + fields_of(
                    pv.skip(i + 1),
                ));
            },
            None => {
                assert(before + fields_of(rest) =~= before + fields_of(pv.skip(i + 1)));
            },
        }
        i += 1;
    }
    assert(pv.skip(i as int) =~= Seq::<Seq<char>>::empty());
    assert(fields_view(res@) + Seq::<(Seq<char>, Seq<char>)>::empty() =~= fields_view(res@));
    res
}

pub proof fn lemma_colon_scan_bound(s: Seq<char>, in_string: bool, escaped: bool)
    ensures
        colon_scan(s, in_string, escaped) matches Some(k) ==> 0 <= k < s.len(),
    decreases s.len(),
{
    if s.len() > 0 {
        lemma_colon_scan_bound(s.drop_first(), escaped || s[0] != '"', !escaped && s[0] == '\\');
        lemma_colon_scan_bound(s.drop_first(), true, false);
        lemma_colon_scan_bound(s.drop_first(), false, false);
    }
}

/// Every part read as a JSON string, if all of them are.
pub open spec fn parse_strings(parts: Seq<Seq<char>>) -> Option<Seq<Seq<char>>>
    decreases parts.len(),
{
    if parts.len() == 0 {
        Some(Seq::empty())
    } else {
        match spec_parse_json_string(trim(parts[0])) {
            Some(x) => match parse_strings(parts.drop_first()) {
                Some(r) => Some(seq![x] + r),
                None => None,
            },
            None => None,
        }
    }
}

/// A flat JSON array of strings, surrounding whitespace allowed, read back.
pub open spec fn spec_parse_json_string_array(s: Seq<char>) -> Option<Seq<Seq<char>>> {
    let t = trim(s);
    if t.len() >= 2 && t[0] == '[' && t.last() == ']' {
        let inner = t.subrange(1, t.len() - 1);
        if trim(inner).len() == 0 {
            Some(Seq::empty())
        } else {
            parse_strings(spec_split_unquoted(inner, ','))
        }
    } else {
        None
    }
}

/// Reads a flat JSON array of strings.
pub fn parse_json_string_array(s: &[char]) -> (res: Option<Vec<Vec<char>>>)
    ensures
        match res {
            Some(v) => spec_parse_json_string_array(s@) == Some(chars_view(v@)),
            None => spec_parse_json_string_array(s@) is None,
        },
{
    let t = trim_exec(s);
    let n = t.len();
    if !(n >= 2 && t[0] == '[' && t[n - 1] == ']') {
        return None;
    }
    let inner = sub_chars(&t, 1, n - 1);
    let (a, b) = trim_bounds(&inner);
    if a == b {
        let empty: Vec<Vec<char>> = Vec::new();
        assert(chars_view(empty@) =~= Seq::<Seq<char>>::empty());
        assert(inner@.subrange(a as int, b as int) =~= Seq::<char>::empty());
        return Some(empty);
    }
    let parts = split_unquoted(&inner, ',');
    let ghost pv = chars_view(parts@);
    assert(spec_parse_json_string_array(s@) == parse_strings(pv));
    let mut res: Vec<Vec<char>> = Vec::new();
    let mut i: usize = 0;
    assert(pv.skip(0) =~= pv);
    assert(chars_view(res@) =~= Seq::<Seq<char>>::empty());
    while i < parts.len()
        invariant
            i <= parts.len(),
            pv == chars_view(parts@),
            spec_parse_json_string_array(s@) == parse_strings(pv),
            parse_strings(pv) == (match parse_strings(pv.skip(i as int)) {
                Some(r) => Some(chars_view(res@) + r),
                None => None,
            }),
        decreases parts.len() - i,
    {
        let ghost before = chars_view(res@);
        let ghost rest = pv.skip(i as int);
        assert(rest[0] == parts@[i as int]@);
        assert(rest.drop_first() =~= pv.skip(i + 1));
        let part = trim_exec(&parts[i]);
        match parse_json_string(&part) {
            Some(x) => {
                res.push(x);
                assert(chars_view(res@) =~= before.push(x@));
                proof {
                    match parse_strings(pv.skip(i + 1)) {
                        Some(r) => {
                            assert(before + (seq![x@] + r) =~= before.push(x@) + r);
                        },
                        None => {},
                    }
                }
            },
            None => {
                return None;
            },
        }
        i += 1;
    }
    assert(pv.skip(i as int) =~= Seq::<Seq<char>>::empty());
    assert(chars_view(res@) + Seq::<Seq<char>>::empty() =~= chars_view(res@));
    Some(res)
}

} // verus!
