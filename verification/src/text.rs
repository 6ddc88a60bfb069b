//! Character-level text utilities. The library models every piece of text
//! as a sequence of `char`s; these are the searches, case folding, trimming
//! and line splitting that both formats are built from.
use vstd::prelude::*;

verus! {

// ---------------------------------------------------------------------
// Conversions between `str`/`String` and character vectors
// ---------------------------------------------------------------------

/// The characters of a string slice, in order.
pub fn chars_of(s: &str) -> (res: Vec<char>)
    ensures
        res@ == s@,
{
    let mut res: Vec<char> = Vec::new();
    for c in it: s.chars()
        invariant
            res@ == it.seq().take(it.index() as int),
    {
        res.push(c);
    }
    res
}

/// Appends the characters of `s` to `out`.
pub fn push_str(out: &mut Vec<char>, s: &str)
    ensures
        final(out)@ == old(out)@ + s@,
{
    let ghost start = out@;
    for c in it: s.chars()
        invariant
            out@ == start + it.seq().take(it.index() as int),
    {
        out.push(c);
        assert(it.seq().take(it.index() + 1) =~= it.seq().take(it.index() as int).push(c));
    }
}

/// Appends the characters of `s` to `out`.
pub fn push_chars(out: &mut Vec<char>, s: &[char])
    ensures
        final(out)@ == old(out)@ + s@,
{
    let ghost start = out@;
    for i in 0..s.len()
        invariant
            out@ == start + s@.take(i as int),
    {
        out.push(s[i]);
        assert(s@.take(i + 1) =~= s@.take(i as int).push(s@[i as int]));
    }
    assert(s@.take(s.len() as int) =~= s@);
}

/// `String::push`, which appends a character to the end of a string. The
/// contract states just that: the characters afterwards are the ones before,
/// followed by `c`.
#[verifier::external_body]
fn string_push(s: &mut String, c: char)
    ensures
        final(s)@ == old(s)@.push(c),
{
    s.push(c);
}

/// The string whose characters are `v`.
pub fn string_of(v: &[char]) -> (res: String)
    ensures
        res@ == v@,
{
    let mut res = String::new();
    for i in 0..v.len()
        invariant
            res@ == v@.take(i as int),
    {
        string_push(&mut res, v[i]);
        assert(v@.take(i + 1) =~= v@.take(i as int).push(v@[i as int]));
    }
    assert(v@.take(v.len() as int) =~= v@);
    res
}

/// Strings holding each of the character vectors in `v`.
pub fn strings_of(v: &[Vec<char>]) -> (res: Vec<String>)
    ensures
        res.deep_view() == v@.map_values(|x: Vec<char>| x@),
{
    let mut res: Vec<String> = Vec::new();
    for i in 0..v.len()
        invariant
            res.len() == i,
            forall|j: int| 0 <= j < i ==> (#[trigger] res@[j])@ == v@[j]@,
    {
        let s = string_of(&v[i]);
        res.push(s);
    }
    assert(res.deep_view() =~= v@.map_values(|x: Vec<char>| x@));
    res
}

/// A copy of `s[from..to]`.
pub fn sub_chars(s: &[char], from: usize, to: usize) -> (res: Vec<char>)
    requires
        from <= to <= s.len(),
    ensures
        res@ == s@.subrange(from as int, to as int),
{
    let mut res: Vec<char> = Vec::new();
    let mut i = from;
    while i < to
        invariant
            from <= i <= to <= s.len(),
            res@ == s@.subrange(from as int, i as int),
        decreases to - i,
    {
        res.push(s[i]);
        assert(s@.subrange(from as int, i + 1) =~= s@.subrange(from as int, i as int).push(
            s@[i as int],
        ));
        i += 1;
    }
    res
}

/// Whether two character sequences are equal.
pub fn chars_eq(a: &[char], b: &[char]) -> (res: bool)
    ensures
        res == (a@ == b@),
{
    if a.len() != b.len() {
        return false;
    }
    for i in 0..a.len()
        invariant
            a@.len() == b@.len(),
            forall|j: int| 0 <= j < i ==> a@[j] == b@[j],
    {
        if a[i] != b[i] {
            return false;
        }
    }
    assert(a@ =~= b@);
    true
}

// ---------------------------------------------------------------------
// ASCII case folding
// ---------------------------------------------------------------------

/// `char::to_ascii_lowercase`: `A`..=`Z` map to `a`..=`z`, everything else
/// is unchanged.
pub open spec fn ascii_lower(c: char) -> char {
    if 'A' <= c && c <= 'Z' {
        ((c as u32) + 32) as char
    } else {
        c
    }
}

/// `str::to_ascii_lowercase`, character by character.
pub open spec fn lower(s: Seq<char>) -> Seq<char> {
    s.map_values(|c: char| ascii_lower(c))
}

pub fn ascii_lower_exec(c: char) -> (res: char)
    ensures
        res == ascii_lower(c),
{
    if 'A' <= c && c <= 'Z' {
        let b: u8 = c as u8;
        let r: u8 = b + 32;
        r as char
    } else {
        c
    }
}

pub fn lower_exec(s: &[char]) -> (res: Vec<char>)
    ensures
        res@ == lower(s@),
{
    let mut res: Vec<char> = Vec::new();
    for i in 0..s.len()
        invariant
            res@ == lower(s@.take(i as int)),
    {
        res.push(ascii_lower_exec(s[i]));
        assert(lower(s@.take(i + 1)) =~= lower(s@.take(i as int)).push(ascii_lower(s@[i as int])));
    }
    assert(s@.take(s.len() as int) =~= s@);
    res
}

pub proof fn lemma_lower_concat(a: Seq<char>, b: Seq<char>)
    ensures
        lower(a + b) == lower(a) + lower(b),
{
    assert(lower(a + b) =~= lower(a) + lower(b));
}

// ---------------------------------------------------------------------
// Substring search
// ---------------------------------------------------------------------

/// `needle` occurs in `hay` starting at index `i`.
pub open spec fn matches_at(hay: Seq<char>, needle: Seq<char>, i: int) -> bool {
    0 <= i && i + needle.len() <= hay.len() && hay.subrange(i, i + needle.len()) == needle
}

/// The first index at or after `i` where `needle` occurs in `hay`.
pub open spec fn find_from(hay: Seq<char>, needle: Seq<char>, i: int) -> Option<int>
    decreases hay.len() + 1 - i,
{
    if i < 0 || i + needle.len() > hay.len() {
        None
    } else if matches_at(hay, needle, i) {
        Some(i)
    } else {
        find_from(hay, needle, i + 1)
    }
}

/// `str::find`: the first index where `needle` occurs in `hay`.
pub open spec fn find(hay: Seq<char>, needle: Seq<char>) -> Option<int> {
    find_from(hay, needle, 0)
}

/// `str::find` with a single character.
pub open spec fn find_char(hay: Seq<char>, c: char) -> Option<int> {
    find(hay, seq![c])
}

/// An `Option<usize>` seen as an `Option<int>`.
pub open spec fn opt_int(o: Option<usize>) -> Option<int> {
    match o {
        Some(i) => Some(i as int),
        None => None,
    }
}

/// Shifts a found index by `k`.
pub open spec fn shift(o: Option<int>, k: int) -> Option<int> {
    match o {
        Some(i) => Some(i + k),
        None => None,
    }
}

pub proof fn lemma_shift_shift(o: Option<int>, a: int, b: int)
    ensures
        shift(shift(o, a), b) == shift(o, a + b),
{
}

pub fn matches_at_exec(hay: &[char], needle: &[char], i: usize) -> (res: bool)
    requires
        i + needle.len() <= hay.len(),
    ensures
        res == matches_at(hay@, needle@, i as int),
{
    for j in 0..needle.len()
        invariant
            i + needle.len() <= hay.len(),
            forall|k: int| 0 <= k < j ==> hay@[i + k] == needle@[k],
    {
        if hay[i + j] != needle[j] {
            assert(hay@.subrange(i as int, i + needle.len())[j as int] != needle@[j as int]);
            return false;
        }
    }
    assert(hay@.subrange(i as int, i + needle.len()) =~= needle@);
    true
}

/// The first index at or after `start` where `needle` occurs in `hay`.
pub fn find_from_exec(hay: &[char], needle: &[char], start: usize) -> (res: Option<usize>)
    ensures
        opt_int(res) == find_from(hay@, needle@, start as int),
{
    if start > hay.len() {
        return None;
    }
    if needle.len() == 0 {
        assert(hay@.subrange(start as int, start as int) =~= needle@);
        return Some(start);
    }
    let mut i = start;
    while needle.len() <= hay.len() - i
        invariant
            start <= i <= hay.len(),
            needle.len() > 0,
            find_from(hay@, needle@, start as int) == find_from(hay@, needle@, i as int),
        decreases hay.len() - i,
    {
        if matches_at_exec(hay, needle, i) {
            return Some(i);
        }
        i += 1;
    }
    None
}

/// `str::find`.
pub fn find_exec(hay: &[char], needle: &[char]) -> (res: Option<usize>)
    ensures
        opt_int(res) == find(hay@, needle@),
{
    find_from_exec(hay, needle, 0)
}

/// A found index lies inside `hay` and the needle really occurs there.
pub proof fn lemma_find_from_found(hay: Seq<char>, needle: Seq<char>, i: int)
    ensures
        find_from(hay, needle, i) matches Some(k) ==> i <= k && matches_at(hay, needle, k),
        find_from(hay, needle, i) matches Some(k) ==> forall|j: int|
            i <= j < k ==> !#[trigger] matches_at(hay, needle, j),
    decreases hay.len() + 1 - i,
{
    if i < 0 || i + needle.len() > hay.len() {
    } else if matches_at(hay, needle, i) {
    } else {
        lemma_find_from_found(hay, needle, i + 1);
    }
}

pub proof fn lemma_find_found(hay: Seq<char>, needle: Seq<char>)
    ensures
        find(hay, needle) matches Some(k) ==> 0 <= k && k + needle.len() <= hay.len()
            && hay.subrange(k, k + needle.len()) == needle,
        find(hay, needle) matches Some(k) ==> forall|j: int|
            0 <= j < k ==> !#[trigger] matches_at(hay, needle, j),
{
    lemma_find_from_found(hay, needle, 0);
}

/// If the needle occurs at `k` and nowhere in `[i, k)`, the search from `i`
/// finds `k`.
pub proof fn lemma_find_from_at(hay: Seq<char>, needle: Seq<char>, i: int, k: int)
    requires
        0 <= i <= k,
        matches_at(hay, needle, k),
        forall|j: int| i <= j < k ==> !#[trigger] matches_at(hay, needle, j),
    ensures
        find_from(hay, needle, i) == Some(k),
    decreases k - i,
{
    if i < k {
        assert(!matches_at(hay, needle, i));
        lemma_find_from_at(hay, needle, i + 1, k);
    }
}

/// If the needle occurs nowhere at or after `i`, the search from `i` fails.
pub proof fn lemma_find_from_none(hay: Seq<char>, needle: Seq<char>, i: int)
    requires
        0 <= i,
        forall|j: int| i <= j ==> !#[trigger] matches_at(hay, needle, j),
    ensures
        find_from(hay, needle, i) is None,
    decreases hay.len() + 1 - i,
{
    if i + needle.len() <= hay.len() {
        assert(!matches_at(hay, needle, i));
        lemma_find_from_none(hay, needle, i + 1);
    }
}

/// A failed search means the needle occurs nowhere from there on.
pub proof fn lemma_find_from_none_no_match(hay: Seq<char>, needle: Seq<char>, i: int)
    requires
        0 <= i,
        find_from(hay, needle, i) is None,
    ensures
        forall|j: int| i <= j ==> !#[trigger] matches_at(hay, needle, j),
    decreases hay.len() + 1 - i,
{
    if i + needle.len() <= hay.len() {
        lemma_find_from_none_no_match(hay, needle, i + 1);
    }
}

/// Searching a suffix is searching the whole from the suffix's start.
pub proof fn lemma_find_skip(hay: Seq<char>, needle: Seq<char>, k: int)
    requires
        0 <= k <= hay.len(),
    ensures
        shift(find(hay.skip(k), needle), k) == find_from(hay, needle, k),
{
    lemma_find_from_skip(hay, needle, k, 0);
}

proof fn lemma_find_from_skip(hay: Seq<char>, needle: Seq<char>, k: int, i: int)
    requires
        0 <= k <= hay.len(),
        0 <= i,
    ensures
        shift(find_from(hay.skip(k), needle, i), k) == find_from(hay, needle, k + i),
    decreases hay.len() + 1 - k - i,
{
    let s = hay.skip(k);
    if i + needle.len() > s.len() {
    } else {
        assert(s.subrange(i, i + needle.len()) =~= hay.subrange(k + i, k + i + needle.len()));
        if !matches_at(s, needle, i) {
            lemma_find_from_skip(hay, needle, k, i + 1);
        }
    }
}

/// A prefix without the needle's first character cannot hold the start of
/// a match, so the search skips over it.
pub proof fn lemma_find_after_prefix(a: Seq<char>, b: Seq<char>, needle: Seq<char>)
    requires
        needle.len() > 0,
        !a.contains(needle[0]),
    ensures
        find(a + b, needle) == shift(find(b, needle), a.len() as int),
{
    let h = a + b;
    assert forall|j: int| 0 <= j < a.len() implies !#[trigger] matches_at(h, needle, j) by {
        if matches_at(h, needle, j) {
            assert(h.subrange(j, j + needle.len())[0] == needle[0]);
            assert(a[j] == h[j]);
        }
    }
    lemma_find_from_prefix_fails(h, needle, 0, a.len() as int);
    lemma_find_skip(h, needle, a.len() as int);
    assert(h.skip(a.len() as int) =~= b);
}

proof fn lemma_find_from_prefix_fails(h: Seq<char>, needle: Seq<char>, i: int, m: int)
    requires
        0 <= i <= m,
        forall|j: int| i <= j < m ==> !#[trigger] matches_at(h, needle, j),
    ensures
        find_from(h, needle, i) == find_from(h, needle, m),
    decreases m - i,
{
    if i < m {
        assert(!matches_at(h, needle, i));
        lemma_find_from_prefix_fails(h, needle, i + 1, m);
    }
}

/// A single character is found in a concatenation: in the prefix if it is
/// there, else in the suffix.
pub proof fn lemma_find_char_concat(a: Seq<char>, b: Seq<char>, c: char)
    ensures
        !a.contains(c) ==> find_char(a + b, c) == shift(find_char(b, c), a.len() as int),
        find_char(a, c) matches Some(k) ==> find_char(a + b, c) == Some(k),
{
    if !a.contains(c) {
        lemma_find_after_prefix(a, b, seq![c]);
    }
    lemma_find_found(a, seq![c]);
    if let Some(k) = find_char(a, c) {
        assert forall|j: int| 0 <= j < k implies !#[trigger] matches_at(a + b, seq![c], j) by {
            assert(!matches_at(a, seq![c], j));
            assert((a + b).subrange(j, j + 1) =~= a.subrange(j, j + 1));
        }
        assert((a + b).subrange(k, k + 1) =~= a.subrange(k, k + 1));
        lemma_find_from_at(a + b, seq![c], 0, k);
    }
}

/// A character that is absent is not found; one at the front is found at 0.
pub proof fn lemma_find_char_basic(a: Seq<char>, c: char)
    ensures
        !a.contains(c) ==> find_char(a, c) is None,
        a.len() > 0 && a[0] == c ==> find_char(a, c) == Some(0int),
{
    if !a.contains(c) {
        assert forall|j: int| 0 <= j implies !#[trigger] matches_at(a, seq![c], j) by {
            if matches_at(a, seq![c], j) {
                assert(a.subrange(j, j + 1)[0] == c);
                assert(a[j] == c);
            }
        }
        lemma_find_from_none(a, seq![c], 0);
    }
    if a.len() > 0 && a[0] == c {
        assert(a.subrange(0, 1) =~= seq![c]);
    }
}

/// A needle at the very front is found there.
pub proof fn lemma_find_at_front(a: Seq<char>, b: Seq<char>)
    ensures
        find(a + b, a) == Some(0int),
{
    assert((a + b).subrange(0, a.len() as int) =~= a);
}

// ---------------------------------------------------------------------
// Prefixes and suffixes
// ---------------------------------------------------------------------

pub open spec fn starts_with(s: Seq<char>, p: Seq<char>) -> bool {
    p.len() <= s.len() && s.take(p.len() as int) == p
}

pub open spec fn ends_with(s: Seq<char>, p: Seq<char>) -> bool {
    p.len() <= s.len() && s.skip(s.len() - p.len()) == p
}

pub fn starts_with_exec(s: &[char], p: &[char]) -> (res: bool)
    ensures
        res == starts_with(s@, p@),
{
    if p.len() > s.len() {
        return false;
    }
    let r = matches_at_exec(s, p, 0);
    assert(s@.subrange(0, p@.len() as int) =~= s@.take(p@.len() as int));
    r
}

// ---------------------------------------------------------------------
// Whitespace and trimming
// ---------------------------------------------------------------------

/// `char::is_whitespace`: the Unicode `White_Space` property.
pub open spec fn is_ws(c: char) -> bool {
    ||| ('\u{9}' <= c && c <= '\u{d}')
    ||| c == ' '
    ||| c == '\u{85}'
    ||| c == '\u{a0}'
    ||| c == '\u{1680}'
    ||| ('\u{2000}' <= c && c <= '\u{200a}')
    ||| c == '\u{2028}'
    ||| c == '\u{2029}'
    ||| c == '\u{202f}'
    ||| c == '\u{205f}'
    ||| c == '\u{3000}'
}

pub fn is_ws_exec(c: char) -> (res: bool)
    ensures
        res == is_ws(c),
{
    ('\u{9}' <= c && c <= '\u{d}') || c == ' ' || c == '\u{85}' || c == '\u{a0}' || c
        == '\u{1680}' || ('\u{2000}' <= c && c <= '\u{200a}') || c == '\u{2028}' || c
        == '\u{2029}' || c == '\u{202f}' || c == '\u{205f}' || c == '\u{3000}'
}

/// The number of leading whitespace characters.
pub open spec fn ws_prefix_len(s: Seq<char>) -> nat
    decreases s.len(),
{
    if s.len() > 0 && is_ws(s[0]) {
        1 + ws_prefix_len(s.drop_first())
    } else {
        0
    }
}

/// The number of trailing whitespace characters.
pub open spec fn ws_suffix_len(s: Seq<char>) -> nat
    decreases s.len(),
{
    if s.len() > 0 && is_ws(s.last()) {
        1 + ws_suffix_len(s.drop_last())
    } else {
        0
    }
}

/// `str::trim`: drops leading and trailing whitespace.
pub open spec fn trim(s: Seq<char>) -> Seq<char> {
    let t = s.skip(ws_prefix_len(s) as int);
    t.take(t.len() - ws_suffix_len(t))
}

pub proof fn lemma_ws_prefix_len(s: Seq<char>)
    ensures
        ws_prefix_len(s) <= s.len(),
        forall|i: int| 0 <= i < ws_prefix_len(s) ==> is_ws(#[trigger] s[i]),
        ws_prefix_len(s) < s.len() ==> !is_ws(s[ws_prefix_len(s) as int]),
    decreases s.len(),
{
    if s.len() > 0 && is_ws(s[0]) {
        lemma_ws_prefix_len(s.drop_first());
        assert forall|i: int| 0 <= i < ws_prefix_len(s) implies is_ws(#[trigger] s[i]) by {
            if i > 0 {
                assert(s[i] == s.drop_first()[i - 1]);
            }
        }
    }
}

pub proof fn lemma_ws_suffix_len(s: Seq<char>)
    ensures
        ws_suffix_len(s) <= s.len(),
        forall|i: int| s.len() - ws_suffix_len(s) <= i < s.len() ==> is_ws(#[trigger] s[i]),
        ws_suffix_len(s) < s.len() ==> !is_ws(s[s.len() - ws_suffix_len(s) - 1]),
    decreases s.len(),
{
    if s.len() > 0 && is_ws(s.last()) {
        lemma_ws_suffix_len(s.drop_last());
        assert forall|i: int| s.len() - ws_suffix_len(s) <= i < s.len() implies is_ws(
            #[trigger] s[i],
        ) by {
            if i < s.len() - 1 {
                assert(s[i] == s.drop_last()[i]);
            }
        }
    }
}

/// Counts leading whitespace, as `ws_prefix_len`.
fn ws_prefix_len_exec(s: &[char]) -> (res: usize)
    ensures
        res == ws_prefix_len(s@),
{
    let mut i: usize = 0;
    assert(s@.skip(0) =~= s@);
    while i < s.len() && is_ws_exec(s[i])
        invariant
            i <= s.len(),
            ws_prefix_len(s@) == i + ws_prefix_len(s@.skip(i as int)),
        decreases s.len() - i,
    {
        assert(s@.skip(i as int).drop_first() =~= s@.skip(i + 1));
        i += 1;
    }
    assert(s@.skip(i as int).len() > 0 ==> s@.skip(i as int)[0] == s@[i as int]);
    assert(s@.skip(0) =~= s@);
    i
}

/// Counts trailing whitespace, as `ws_suffix_len`.
fn ws_suffix_len_exec(s: &[char], from: usize) -> (res: usize)
    requires
        from <= s.len(),
    ensures
        res == ws_suffix_len(s@.skip(from as int)),
{
    let ghost t = s@.skip(from as int);
    let mut n: usize = 0;
    assert(t.take(t.len() as int) =~= t);
    while n < s.len() - from && is_ws_exec(s[s.len() - 1 - n])
        invariant
            from <= s.len(),
            t == s@.skip(from as int),
            n <= t.len(),
            ws_suffix_len(t) == n + ws_suffix_len(t.take(t.len() - n)),
        decreases s.len() - from - n,
    {
        let ghost u = t.take(t.len() - n);
        assert(u.last() == s@[s.len() - 1 - n]);
        assert(u.drop_last() =~= t.take(t.len() - n - 1));
        n += 1;
    }
    let ghost u = t.take(t.len() - n);
    assert(u.len() > 0 ==> u.last() == s@[s.len() - 1 - n]);
    assert(t.take(t.len() as int) =~= t);
    n
}

/// The bounds `[start, end)` of `trim(s)` inside `s`.
pub fn trim_bounds(s: &[char]) -> (res: (usize, usize))
    ensures
        res.0 <= res.1 <= s.len(),
        s@.subrange(res.0 as int, res.1 as int) == trim(s@),
{
    let a = ws_prefix_len_exec(s);
    proof { lemma_ws_prefix_len(s@); }
    let b = ws_suffix_len_exec(s, a);
    proof { lemma_ws_suffix_len(s@.skip(a as int)); }
    let end = s.len() - b;
    assert(s@.subrange(a as int, end as int) =~= trim(s@));
    (a, end)
}

/// `str::trim`.
pub fn trim_exec(s: &[char]) -> (res: Vec<char>)
    ensures
        res@ == trim(s@),
{
    let (a, b) = trim_bounds(s);
    sub_chars(s, a, b)
}

/// Trimming leaves text that begins and ends with non-whitespace alone.
pub proof fn lemma_trim_noop(s: Seq<char>)
    requires
        s.len() > 0,
        !is_ws(s[0]),
        !is_ws(s.last()),
    ensures
        trim(s) == s,
{
    assert(ws_prefix_len(s) == 0);
    assert(s.skip(0) =~= s);
    assert(ws_suffix_len(s) == 0);
    assert(s.take(s.len() as int) =~= s);
}

/// Leading whitespace is trimmed away.
pub proof fn lemma_trim_leading(w: Seq<char>, s: Seq<char>)
    requires
        forall|i: int| 0 <= i < w.len() ==> is_ws(#[trigger] w[i]),
    ensures
        trim(w + s) == trim(s),
    decreases w.len(),
{
    if w.len() > 0 {
        assert((w + s).drop_first() =~= w.drop_first() + s);
        assert((w + s)[0] == w[0]);
        lemma_trim_leading(w.drop_first(), s);
        let k = ws_prefix_len(w.drop_first() + s) as int;
        lemma_ws_prefix_len(w.drop_first() + s);
        assert(ws_prefix_len(w + s) == 1 + k);
        assert((w + s).skip(1 + k) =~= (w.drop_first() + s).skip(k));
    } else {
        assert(w + s =~= s);
    }
}

proof fn lemma_ws_suffix_concat(t: Seq<char>, w: Seq<char>)
    requires
        forall|i: int| 0 <= i < w.len() ==> is_ws(#[trigger] w[i]),
    ensures
        ws_suffix_len(t + w) == w.len() + ws_suffix_len(t),
    decreases w.len(),
{
    if w.len() == 0 {
        assert(t + w =~= t);
    } else {
        assert((t + w).drop_last() =~= t + w.drop_last());
        assert((t + w).last() == w.last());
        assert(is_ws(w[w.len() - 1]));
        lemma_ws_suffix_concat(t, w.drop_last());
    }
}

proof fn lemma_ws_prefix_concat(s: Seq<char>, w: Seq<char>)
    requires
        forall|i: int| 0 <= i < w.len() ==> is_ws(#[trigger] w[i]),
    ensures
        ws_prefix_len(s) < s.len() ==> ws_prefix_len(s + w) == ws_prefix_len(s),
        ws_prefix_len(s) == s.len() ==> ws_prefix_len(s + w) == s.len() + w.len(),
    decreases s.len() + w.len(),
{
    lemma_ws_prefix_len(s);
    if s.len() == 0 {
        assert(s + w =~= w);
        if w.len() > 0 {
            assert(is_ws(w[0]));
            lemma_ws_prefix_concat(s, w.drop_first());
            assert(s + w.drop_first() =~= w.drop_first());
        }
    } else {
        assert((s + w).drop_first() =~= s.drop_first() + w);
        assert((s + w)[0] == s[0]);
        if is_ws(s[0]) {
            lemma_ws_prefix_concat(s.drop_first(), w);
        }
    }
}

/// Trailing whitespace is trimmed away.
pub proof fn lemma_trim_trailing(s: Seq<char>, w: Seq<char>)
    requires
        forall|i: int| 0 <= i < w.len() ==> is_ws(#[trigger] w[i]),
    ensures
        trim(s + w) == trim(s),
{
    lemma_ws_prefix_len(s);
    lemma_ws_prefix_concat(s, w);
    let p = ws_prefix_len(s) as int;
    if p < s.len() {
        let t = s.skip(p);
        assert((s + w).skip(p) =~= t + w);
        lemma_ws_suffix_concat(t, w);
        lemma_ws_suffix_len(t);
        assert((t + w).take((t + w).len() - ws_suffix_len(t + w)) =~= t.take(
            t.len() - ws_suffix_len(t),
        ));
    } else {
        assert((s + w).skip(s.len() + w.len() as int) =~= Seq::<char>::empty());
        assert(s.skip(p) =~= Seq::<char>::empty());
        assert(trim(s + w) =~= Seq::<char>::empty());
        assert(trim(s) =~= Seq::<char>::empty());
    }
}

/// The characters `char::is_whitespace` holds for: tab, line feed,
/// vertical tab, form feed, carriage return, space, next line, no-break
/// space, ogham space mark, the spaces U+2000 to U+200A, line and paragraph
/// separator, narrow no-break space, medium mathematical space and
/// ideographic space.
pub open spec fn unicode_white_space(c: char) -> bool {
    ||| c == '\t' || c == '\n' || c == '\u{b}' || c == '\u{c}' || c == '\r' || c == ' '
    ||| c == '\u{85}' || c == '\u{a0}' || c == '\u{1680}'
    ||| ('\u{2000}' <= c && c <= '\u{200a}')
    ||| c == '\u{2028}' || c == '\u{2029}' || c == '\u{202f}' || c == '\u{205f}'
        || c == '\u{3000}'
}

/// Trimming drops any of these characters at either end, a tab as well as
/// a space: as `str::trim` does.
pub proof fn lemma_trim_drops_white_space(c: char, s: Seq<char>)
    requires
        unicode_white_space(c),
    ensures
        trim(seq![c] + s) == trim(s),
        trim(s + seq![c]) == trim(s),
{
    assert(is_ws(seq![c][0]));
    lemma_trim_leading(seq![c], s);
    lemma_trim_trailing(s, seq![c]);
}

// ---------------------------------------------------------------------
// Lines
// ---------------------------------------------------------------------

/// A line without its line ending's `\r`.
pub open spec fn strip_cr(l: Seq<char>) -> Seq<char> {
    if l.len() > 0 && l.last() == '\r' {
        l.drop_last()
    } else {
        l
    }
}

/// The first line of `s`, as `str::lines` yields it.
pub open spec fn first_line(s: Seq<char>) -> Seq<char> {
    match find_char(s, '\n') {
        Some(i) => strip_cr(s.take(i)),
        None => s,
    }
}

/// What follows the first line of `s` and its line ending.
pub open spec fn after_first_line(s: Seq<char>) -> Seq<char> {
    match find_char(s, '\n') {
        Some(i) => s.skip(i + 1),
        None => Seq::empty(),
    }
}

/// `str::lines`: split at `\n` (dropping a `\r` just before it), with no
/// empty line after a final line ending.
pub open spec fn lines(s: Seq<char>) -> Seq<Seq<char>>
    decreases s.len(),
{
    if s.len() == 0 {
        Seq::empty()
    } else {
        proof {
            lemma_after_first_line_shorter(s);
        }
        seq![first_line(s)] + lines(after_first_line(s))
    }
}

pub proof fn lemma_after_first_line_shorter(s: Seq<char>)
    requires
        s.len() > 0,
    ensures
        after_first_line(s).len() < s.len(),
{
    lemma_find_found(s, seq!['\n']);
}

pub proof fn lemma_lines_unfold(s: Seq<char>)
    requires
        s.len() > 0,
    ensures
        lines(s) == seq![first_line(s)] + lines(after_first_line(s)),
{
}

/// A line of text followed by `\n` is a line of its own.
pub proof fn lemma_lines_cons(l: Seq<char>, rest: Seq<char>)
    requires
        !l.contains('\n'),
        !(l.len() > 0 && l.last() == '\r'),
    ensures
        lines(l + seq!['\n'] + rest) == seq![l] + lines(rest),
{
    let s = l + seq!['\n'] + rest;
    lemma_find_char_concat(l, seq!['\n'] + rest, '\n');
    lemma_find_char_basic(seq!['\n'] + rest, '\n');
    assert(l + seq!['\n'] + rest =~= l + (seq!['\n'] + rest));
    assert(find_char(s, '\n') == Some(l.len() as int));
    assert(s.take(l.len() as int) =~= l);
    assert(s.skip(l.len() as int + 1) =~= rest);
    lemma_lines_unfold(s);
}

/// Returns the end of the first line of `s[start..]` (before its line
/// ending) and where the next line begins.
pub fn next_line(s: &[char], start: usize) -> (res: (usize, usize))
    requires
        start < s.len(),
    ensures
        start <= res.0 <= res.1 <= s.len(),
        start < res.1,
        s@.subrange(start as int, res.0 as int) == first_line(s@.skip(start as int)),
        s@.skip(res.1 as int) == after_first_line(s@.skip(start as int)),
{
    let nl = ['\n'];
    let found = find_from_exec(s, &nl, start);
    proof {
        lemma_find_skip(s@, seq!['\n'], start as int);
        assert(nl@ =~= seq!['\n']);
        lemma_find_found(s@.skip(start as int), seq!['\n']);
    }
    let ghost t = s@.skip(start as int);
    match found {
        Some(i) => {
            let end = if i > start && s[i - 1] == '\r' {
                i - 1
            } else {
                i
            };
            assert(s@.subrange(start as int, end as int) =~= first_line(t));
            assert(s@.skip(i + 1) =~= t.skip(i - start + 1));
            (end, i + 1)
        },
        None => {
            assert(s@.subrange(start as int, s.len() as int) =~= t);
            assert(s@.skip(s.len() as int) =~= Seq::<char>::empty());
            (s.len(), s.len())
        },
    }
}

// ---------------------------------------------------------------------
// Membership
// ---------------------------------------------------------------------

/// A character occurs in a concatenation exactly when it occurs in a part.
pub proof fn lemma_contains_concat(a: Seq<char>, b: Seq<char>)
    ensures
        forall|d: char| (a + b).contains(d) <==> (a.contains(d) || b.contains(d)),
{
    assert forall|d: char| (a + b).contains(d) <==> (a.contains(d) || b.contains(d)) by {
        if (a + b).contains(d) {
            let k = choose|k: int| 0 <= k < (a + b).len() && (a + b)[k] == d;
            if k < a.len() {
                assert(a[k] == d);
            } else {
                assert(b[k - a.len()] == d);
            }
        }
        if a.contains(d) {
            let k = choose|k: int| 0 <= k < a.len() && a[k] == d;
            assert((a + b)[k] == d);
        }
        if b.contains(d) {
            let k = choose|k: int| 0 <= k < b.len() && b[k] == d;
            assert((a + b)[k + a.len()] == d);
        }
    }
}

/// A non-empty sequence holds a character exactly when its first element is
/// that character or the rest holds it.
pub proof fn lemma_contains_first(s: Seq<char>)
    requires
        s.len() > 0,
    ensures
        forall|d: char| s.contains(d) <==> (s[0] == d || s.drop_first().contains(d)),
{
    assert(s =~= seq![s[0]] + s.drop_first());
    lemma_contains_concat(seq![s[0]], s.drop_first());
    assert forall|d: char| seq![s[0]].contains(d) <==> s[0] == d by {
        if seq![s[0]].contains(d) {
            let k = choose|k: int| 0 <= k < 1 && seq![s[0]][k] == d;
        }
        if s[0] == d {
            assert(seq![s[0]][0] == d);
        }
    }
}

} // verus!
