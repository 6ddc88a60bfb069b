//! HTML character references: the escaping used when writing Netscape
//! bookmark files and the unescaping used when reading them.
use vstd::prelude::*;

use crate::text::{
    chars_of, lemma_contains_concat, lemma_contains_first, matches_at_exec, push_chars, starts_with,
    string_of,
};

verus! {

pub open spec fn amp_entity() -> Seq<char> {
    seq!['&', 'a', 'm', 'p', ';']
}

pub open spec fn lt_entity() -> Seq<char> {
    seq!['&', 'l', 't', ';']
}

pub open spec fn gt_entity() -> Seq<char> {
    seq!['&', 'g', 't', ';']
}

pub open spec fn quot_entity() -> Seq<char> {
    seq!['&', 'q', 'u', 'o', 't', ';']
}

pub open spec fn numeric_apos_entity() -> Seq<char> {
    seq!['&', '#', '3', '9', ';']
}

pub open spec fn apos_entity() -> Seq<char> {
    seq!['&', 'a', 'p', 'o', 's', ';']
}

/// How one character is written: `&`, `<`, `>` and `"` become character
/// references, everything else stays.
pub open spec fn escape_char(c: char) -> Seq<char> {
    if c == '&' {
        amp_entity()
    } else if c == '<' {
        lt_entity()
    } else if c == '>' {
        gt_entity()
    } else if c == '"' {
        quot_entity()
    } else {
        seq![c]
    }
}

/// The escaped form of `s`, character by character. (Replacing `&`, then
/// `<`, `>` and `"` in turn gives the same text, as no replacement brings in
/// a character that a later one replaces.)
pub open spec fn escape(s: Seq<char>) -> Seq<char>
    decreases s.len(),
{
    if s.len() == 0 {
        Seq::empty()
    } else {
        escape_char(s[0]) + escape(s.drop_first())
    }
}

/// The character reference at the front of `s`, if any: what it stands for
/// and how many characters it takes. A `&` that starts none of them stands
/// for itself.
pub open spec fn entity_at_front(s: Seq<char>) -> (char, int) {
    if starts_with(s, amp_entity()) {
        ('&', 5)
    } else if starts_with(s, lt_entity()) {
        ('<', 4)
    } else if starts_with(s, gt_entity()) {
        ('>', 4)
    } else if starts_with(s, quot_entity()) {
        ('"', 6)
    } else if starts_with(s, numeric_apos_entity()) {
        ('\'', 5)
    } else if starts_with(s, apos_entity()) {
        ('\'', 6)
    } else {
        ('&', 1)
    }
}

/// The text that `s` stands for, with character references resolved.
pub open spec fn unescape(s: Seq<char>) -> Seq<char>
    decreases s.len(),
{
    if s.len() == 0 {
        Seq::empty()
    } else if s[0] == '&' {
        let (c, n) = entity_at_front(s);
        seq![c] + unescape(s.skip(n))
    } else {
        seq![s[0]] + unescape(s.drop_first())
    }
}

/// Appends the escaped form of `s` to `out`.
pub fn escape_html(out: &mut Vec<char>, s: &[char])
    ensures
        final(out)@ == old(out)@ + escape(s@),
{
    let ghost start = out@;
    let mut i: usize = 0;
    assert(s@.skip(0) =~= s@);
    while i < s.len()
        invariant
            i <= s.len(),
            start + escape(s@) == out@ + escape(s@.skip(i as int)),
        decreases s.len() - i,
    {
        let c = s[i];
        let ghost before = out@;
        if c == '&' {
            let e = ['&', 'a', 'm', 'p', ';'];
            push_chars(out, &e);
            assert(e@ =~= amp_entity());
        } else if c == '<' {
            let e = ['&', 'l', 't', ';'];
            push_chars(out, &e);
            assert(e@ =~= lt_entity());
        } else if c == '>' {
            let e = ['&', 'g', 't', ';'];
            push_chars(out, &e);
            assert(e@ =~= gt_entity());
        } else if c == '"' {
            let e = ['&', 'q', 'u', 'o', 't', ';'];
            push_chars(out, &e);
            assert(e@ =~= quot_entity());
        } else {
            out.push(c);
        }
        assert(out@ == before + escape_char(c));
        assert(s@.skip(i as int).drop_first() =~= s@.skip(i + 1));
        assert(escape(s@.skip(i as int)) == escape_char(c) + escape(s@.skip(i + 1)));
        assert(before + (escape_char(c) + escape(s@.skip(i + 1))) =~= (before + escape_char(c))
            + escape(s@.skip(i + 1)));
        i += 1;
    }
    assert(s@.skip(i as int) =~= Seq::<char>::empty());
    assert(out@ + Seq::<char>::empty() =~= out@);
}

fn entity_here(s: &[char], i: usize, e: &[char]) -> (res: bool)
    requires
        i <= s.len(),
    ensures
        res == starts_with(s@.skip(i as int), e@),
{
    if e.len() > s.len() - i {
        return false;
    }
    let r = matches_at_exec(s, e, i);
    assert(s@.subrange(i as int, i + e@.len()) =~= s@.skip(i as int).take(e@.len() as int));
    r
}

fn entity_at(s: &[char], i: usize) -> (res: (char, usize))
    requires
        i <= s.len(),
    ensures
        res.0 == entity_at_front(s@.skip(i as int)).0,
        res.1 == entity_at_front(s@.skip(i as int)).1,
{
    let amp = ['&', 'a', 'm', 'p', ';'];
    let lt = ['&', 'l', 't', ';'];
    let gt = ['&', 'g', 't', ';'];
    let quot = ['&', 'q', 'u', 'o', 't', ';'];
    let num = ['&', '#', '3', '9', ';'];
    let apos = ['&', 'a', 'p', 'o', 's', ';'];
    assert(amp@ =~= amp_entity());
    assert(lt@ =~= lt_entity());
    assert(gt@ =~= gt_entity());
    assert(quot@ =~= quot_entity());
    assert(num@ =~= numeric_apos_entity());
    assert(apos@ =~= apos_entity());
    if entity_here(s, i, &amp) {
        ('&', 5)
    } else if entity_here(s, i, &lt) {
        ('<', 4)
    } else if entity_here(s, i, &gt) {
        ('>', 4)
    } else if entity_here(s, i, &quot) {
        ('"', 6)
    } else if entity_here(s, i, &num) {
        ('\'', 5)
    } else if entity_here(s, i, &apos) {
        ('\'', 6)
    } else {
        ('&', 1)
    }
}

/// Resolves the character references `&amp;`, `&lt;`, `&gt;`, `&quot;`,
/// `&#39;` and `&apos;`; any other `&` stands for itself.
pub fn unescape_chars(s: &[char]) -> (res: Vec<char>)
    ensures
        res@ == unescape(s@),
{
    let mut out: Vec<char> = Vec::new();
    let mut i: usize = 0;
    assert(s@.skip(0) =~= s@);
    while i < s.len()
        invariant
            i <= s.len(),
            unescape(s@) == out@ + unescape(s@.skip(i as int)),
        decreases s.len() - i,
    {
        let ghost t = s@.skip(i as int);
        let ghost before = out@;
        if s[i] == '&' {
            let (c, n) = entity_at(s, i);
            out.push(c);
            proof {
                lemma_entity_len(t);
            }
            assert(t.skip(n as int) =~= s@.skip(i + n));
            assert(before + (seq![c] + unescape(t.skip(n as int))) =~= before.push(c) + unescape(
                s@.skip(i + n),
            ));
            i += n;
        } else {
            out.push(s[i]);
            assert(t.drop_first() =~= s@.skip(i + 1));
            assert(before + (seq![s@[i as int]] + unescape(t.drop_first())) =~= before.push(
                s@[i as int],
            ) + unescape(s@.skip(i + 1)));
            i += 1;
        }
    }
    assert(s@.skip(i as int) =~= Seq::<char>::empty());
    assert(out@ + Seq::<char>::empty() =~= out@);
    out
}

pub proof fn lemma_entity_len(t: Seq<char>)
    requires
        t.len() > 0,
    ensures
        1 <= entity_at_front(t).1 <= t.len(),
{
}

/// Resolves character references in `s` (see `unescape_chars`).
pub fn unescape_html(s: &str) -> (res: String)
    ensures
        res@ == unescape(s@),
{
    let v = chars_of(s);
    let u = unescape_chars(&v);
    string_of(&u)
}

// ---------------------------------------------------------------------
// Laws
// ---------------------------------------------------------------------

proof fn lemma_unescape_escape_char(c: char, t: Seq<char>)
    ensures
        unescape(escape_char(c) + t) == seq![c] + unescape(t),
{
    let s = escape_char(c) + t;
    if c == '&' {
        assert(s.take(5) =~= amp_entity());
        assert(s.skip(5) =~= t);
    } else if c == '<' {
        assert(s[1] == 'l');
        assert(s.take(4) =~= lt_entity());
        assert(s.skip(4) =~= t);
    } else if c == '>' {
        assert(s[1] == 'g');
        assert(s.take(4) =~= gt_entity());
        assert(s.skip(4) =~= t);
    } else if c == '"' {
        assert(s[1] == 'q');
        assert(s.take(6) =~= quot_entity());
        assert(s.skip(6) =~= t);
    } else {
        assert(s[0] == c);
        assert(s.drop_first() =~= t);
    }
}

/// Unescaping undoes escaping: reading back what was written gives the
/// text that was escaped.
pub proof fn lemma_unescape_escape(s: Seq<char>)
    ensures
        unescape(escape(s)) == s,
    decreases s.len(),
{
    if s.len() > 0 {
        lemma_unescape_escape_char(s[0], escape(s.drop_first()));
        lemma_unescape_escape(s.drop_first());
        assert(seq![s[0]] + s.drop_first() =~= s);
    }
}

/// The characters that escaping replaces or writes in a reference.
pub open spec fn touched_by_escape(d: char) -> bool {
    ||| d == '&' || d == '<' || d == '>' || d == '"' || d == ';'
    ||| d == 'a' || d == 'm' || d == 'p' || d == 'l' || d == 't' || d == 'g'
    ||| d == 'q' || d == 'u' || d == 'o'
}

/// Escaped text holds no `<`, `>` or `"`, and holds any other character
/// that escaping leaves alone exactly when the unescaped text does.
pub proof fn lemma_escape_chars(s: Seq<char>)
    ensures
        !escape(s).contains('<'),
        !escape(s).contains('>'),
        !escape(s).contains('"'),
        forall|d: char| !touched_by_escape(d) ==> (#[trigger] escape(s).contains(d) <==> s.contains(d)),
    decreases s.len(),
{
    if s.len() > 0 {
        lemma_escape_chars(s.drop_first());
        let e = escape_char(s[0]);
        let r = escape(s.drop_first());
        assert(!e.contains('<') && !e.contains('>') && !e.contains('"')) by {
            if e.contains('<') {
                let k = choose|k: int| 0 <= k < e.len() && e[k] == '<';
            }
            if e.contains('>') {
                let k = choose|k: int| 0 <= k < e.len() && e[k] == '>';
            }
            if e.contains('"') {
                let k = choose|k: int| 0 <= k < e.len() && e[k] == '"';
            }
        }
        lemma_contains_concat(e, r);
        lemma_contains_first(s);
        assert forall|d: char| !touched_by_escape(d) implies (#[trigger] escape(s).contains(d)
            <==> s.contains(d)) by {
            if s[0] == '&' || s[0] == '<' || s[0] == '>' || s[0] == '"' {
                assert forall|k: int| 0 <= k < e.len() implies e[k] != d by {}
                assert(!e.contains(d));
            } else {
                assert(e == seq![s[0]]);
                if e.contains(d) {
                    let k = choose|k: int| 0 <= k < e.len() && e[k] == d;
                    assert(s[0] == d);
                }
                if s[0] == d {
                    assert(e[0] == d);
                }
                assert(e.contains(d) <==> s[0] == d);
            }
            assert(escape(s) == e + r);
        }
    } else {
    }
}

} // verus!
