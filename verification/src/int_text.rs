//! Decimal text of `i64` values: how `added` timestamps are written
//! (`i64::to_string`) and read back (`str::parse::<i64>`).
use vstd::prelude::*;

verus! {

pub open spec fn is_digit(c: char) -> bool {
    '0' <= c && c <= '9'
}

pub open spec fn digit_value(c: char) -> int {
    c as int - '0' as int
}

pub open spec fn digit_char(d: int) -> char {
    (d + '0' as int) as char
}

pub open spec fn all_digits(s: Seq<char>) -> bool {
    forall|i: int| 0 <= i < s.len() ==> is_digit(#[trigger] s[i])
}

/// The number written by the decimal digits `s`.
pub open spec fn digits_value(s: Seq<char>) -> int
    decreases s.len(),
{
    if s.len() == 0 {
        0
    } else {
        digits_value(s.drop_last()) * 10 + digit_value(s.last())
    }
}

/// The decimal digits of `n`, without leading zeros.
pub open spec fn nat_text(n: nat) -> Seq<char>
    decreases n,
{
    if n < 10 {
        seq![digit_char(n as int)]
    } else {
        nat_text(n / 10).push(digit_char((n % 10) as int))
    }
}

/// `i64::to_string`: a `-` for negative values, then the decimal digits of
/// the magnitude.
pub open spec fn i64_text(v: i64) -> Seq<char> {
    if v < 0 {
        seq!['-'] + nat_text((-v) as nat)
    } else {
        nat_text(v as nat)
    }
}

/// The digits of `s` after an optional sign.
pub open spec fn unsigned_part(s: Seq<char>) -> Seq<char> {
    if s.len() > 0 && (s[0] == '-' || s[0] == '+') {
        s.drop_first()
    } else {
        s
    }
}

/// `str::parse::<i64>`: an optional `+` or `-`, then one or more decimal
/// digits, whose value must fit in an `i64`.
pub open spec fn parse_i64(s: Seq<char>) -> Option<i64> {
    let ds = unsigned_part(s);
    let v = if s.len() > 0 && s[0] == '-' {
        -digits_value(ds)
    } else {
        digits_value(ds)
    };
    if ds.len() > 0 && all_digits(ds) && i64::MIN <= v <= i64::MAX {
        Some(v as i64)
    } else {
        None
    }
}

fn push_nat_text(out: &mut Vec<char>, n: u64)
    ensures
        final(out)@ == old(out)@ + nat_text(n as nat),
    decreases n,
{
    let ghost start = out@;
    if n >= 10 {
        push_nat_text(out, n / 10);
    }
    let d: u8 = (n % 10) as u8;
    let c: char = (48u8 + d) as char;
    out.push(c);
    proof {
        assert(c == digit_char((n % 10) as int));
        if n >= 10 {
            assert(start + nat_text(n as nat) =~= start + nat_text((n / 10) as nat) + seq![c]);
        } else {
            assert(start + nat_text(n as nat) =~= start.push(c));
        }
    }
}

/// Appends the decimal text of `v` to `out`.
pub fn push_i64_text(out: &mut Vec<char>, v: i64)
    ensures
        final(out)@ == old(out)@ + i64_text(v),
{
    if v < 0 {
        let ghost start = out@;
        out.push('-');
        let m: u64 = if v == i64::MIN {
            9223372036854775808u64
        } else {
            (-v) as u64
        };
        push_nat_text(out, m);
        assert(start.push('-') + nat_text(m as nat) =~= start + (seq!['-'] + nat_text(
            (-v) as nat,
        )));
    } else {
        push_nat_text(out, v as u64);
    }
}

proof fn lemma_digits_value_push(s: Seq<char>, c: char)
    ensures
        digits_value(s.push(c)) == digits_value(s) * 10 + digit_value(c),
{
    assert(s.push(c).drop_last() =~= s);
}

proof fn lemma_digits_value_nonneg(s: Seq<char>)
    requires
        all_digits(s),
    ensures
        digits_value(s) >= 0,
    decreases s.len(),
{
    if s.len() > 0 {
        lemma_digits_value_nonneg(s.drop_last());
        assert(is_digit(s[s.len() - 1]));
        assert(digits_value(s.drop_last()) * 10 >= 0) by (nonlinear_arith)
            requires
                digits_value(s.drop_last()) >= 0,
        ;
    }
}

/// A longer run of digits never has a smaller value.
proof fn lemma_digits_value_prefix(s: Seq<char>, k: int)
    requires
        all_digits(s),
        0 <= k <= s.len(),
    ensures
        digits_value(s.take(k)) <= digits_value(s),
    decreases s.len() - k,
{
    if k < s.len() {
        lemma_digits_value_prefix(s, k + 1);
        let t = s.take(k + 1);
        assert(t.drop_last() =~= s.take(k));
        assert(is_digit(s[k]));
        assert(all_digits(s.take(k)));
        lemma_digits_value_nonneg(s.take(k));
        let a = digits_value(s.take(k));
        assert(a <= a * 10) by (nonlinear_arith)
            requires
                a >= 0,
        ;
    } else {
        assert(s.take(k) =~= s);
    }
}

/// The value of `i64_text` fits; parsing gives the number back.
proof fn lemma_nat_text(n: nat)
    ensures
        nat_text(n).len() > 0,
        all_digits(nat_text(n)),
        digits_value(nat_text(n)) == n,
    decreases n,
{
    if n >= 10 {
        lemma_nat_text(n / 10);
        let t = nat_text(n / 10);
        lemma_digits_value_push(t, digit_char((n % 10) as int));
        assert(digit_value(digit_char((n % 10) as int)) == n % 10);
        assert((n / 10) * 10 + n % 10 == n) by (nonlinear_arith);
        assert forall|i: int| 0 <= i < nat_text(n).len() implies is_digit(
            #[trigger] nat_text(n)[i],
        ) by {
            if i < t.len() {
                assert(nat_text(n)[i] == t[i]);
            }
        }
    } else {
        assert(digits_value(nat_text(n)) == digits_value(nat_text(n).drop_last()) * 10
            + digit_value(nat_text(n).last()));
        assert(nat_text(n).drop_last() =~= Seq::<char>::empty());
    }
}

/// Reading back the decimal text of a number gives the number.
pub proof fn lemma_parse_i64_text(v: i64)
    ensures
        parse_i64(i64_text(v)) == Some(v),
{
    if v < 0 {
        let m = (-v) as nat;
        lemma_nat_text(m);
        let s = i64_text(v);
        assert(s.drop_first() =~= nat_text(m));
    } else {
        lemma_nat_text(v as nat);
        assert(is_digit(nat_text(v as nat)[0]));
    }
}

/// The decimal text of a number holds only digits and `-`.
pub proof fn lemma_i64_text_chars(v: i64)
    ensures
        i64_text(v).len() > 0,
        forall|i: int|
            0 <= i < i64_text(v).len() ==> is_digit(#[trigger] i64_text(v)[i]) || i64_text(v)[i]
                == '-',
{
    if v < 0 {
        lemma_nat_text((-v) as nat);
        assert forall|i: int| 0 <= i < i64_text(v).len() implies is_digit(
            #[trigger] i64_text(v)[i],
        ) || i64_text(v)[i] == '-' by {
            if i > 0 {
                assert(i64_text(v)[i] == nat_text((-v) as nat)[i - 1]);
            }
        }
    } else {
        lemma_nat_text(v as nat);
    }
}

/// `str::parse::<i64>`.
pub fn parse_i64_exec(s: &[char]) -> (res: Option<i64>)
    ensures
        res == parse_i64(s@),
{
    let neg = s.len() > 0 && s[0] == '-';
    let start: usize = if s.len() > 0 && (s[0] == '-' || s[0] == '+') {
        1
    } else {
        0
    };
    let ghost ds = unsigned_part(s@);
    assert(ds =~= s@.skip(start as int));
    if start == s.len() {
        return None;
    }
    let limit: u64 = if neg {
        9223372036854775808u64
    } else {
        9223372036854775807u64
    };
    let mut acc: u64 = 0;
    let mut i = start;
    assert(ds.take(0) =~= Seq::<char>::empty());
    while i < s.len()
        invariant
            start <= i <= s.len(),
            start < s.len(),
            ds == s@.skip(start as int),
            ds == unsigned_part(s@),
            neg == (s@.len() > 0 && s@[0] == '-'),
            all_digits(ds.take(i - start)),
            acc as int == digits_value(ds.take(i - start)),
            acc <= limit,
            limit == (if neg {
                9223372036854775808u64
            } else {
                9223372036854775807u64
            }),
        decreases s.len() - i,
    {
        let c = s[i];
        if !('0' <= c && c <= '9') {
            assert(ds[i - start] == c);
            return None;
        }
        let d: u64 = ((c as u32) - 48) as u64;
        let ghost pre = ds.take(i - start);
        assert(ds.take(i - start + 1) =~= pre.push(c));
        proof {
            lemma_digits_value_push(pre, c);
        }
        if acc > (limit - d) / 10 {
            proof {
                assert(acc * 10 + d > limit) by (nonlinear_arith)
                    requires
                        acc > (limit - d) / 10,
                        d <= 9,
                        d <= limit,
                ;
                if all_digits(ds) {
                    lemma_digits_value_prefix(ds, i - start + 1);
                }
            }
            return None;
        }
        assert(acc * 10 + d <= limit) by (nonlinear_arith)
            requires
                acc <= (limit - d) / 10,
                d <= 9,
                d <= limit,
        ;
        acc = acc * 10 + d;
        i += 1;
    }
    assert(ds.take(i - start) =~= ds);
    if neg {
        if acc == 9223372036854775808u64 {
            Some(i64::MIN)
        } else {
            Some(-(acc as i64))
        }
    } else {
        Some(acc as i64)
    }
}

/// The first digit of a positive number's text is not `0`.
proof fn lemma_nat_text_first(n: nat)
    requires
        n > 0,
    ensures
        nat_text(n)[0] != '0',
    decreases n,
{
    if n >= 10 {
        lemma_nat_text(n / 10);
        lemma_nat_text_first(n / 10);
        assert(nat_text(n)[0] == nat_text(n / 10)[0]);
    } else {
        assert(digit_char(n as int) as int == n + 48);
    }
}

/// The decimal text of a number is its canonical spelling: digits only,
/// spelling the number, and no leading zero (`0` itself is the single digit
/// `0`), as JSON and `i64::to_string` write numbers.
pub proof fn lemma_nat_text_canonical(n: nat)
    ensures
        nat_text(n).len() > 0,
        all_digits(nat_text(n)),
        digits_value(nat_text(n)) == n,
        n == 0 <==> nat_text(n) == seq!['0'],
        nat_text(n).len() > 1 ==> nat_text(n)[0] != '0',
{
    lemma_nat_text(n);
    if n > 0 {
        lemma_nat_text_first(n);
    } else {
        assert(nat_text(n) =~= seq!['0']);
    }
}

/// The decimal text of an `i64` is `-` exactly for a negative value,
/// followed by the canonical digits of its magnitude: digits only, spelling
/// the magnitude, with no leading zero.
pub proof fn lemma_i64_text_canonical(v: i64)
    ensures
        i64_text(v).len() > 0,
        (i64_text(v)[0] == '-') <==> v < 0,
        ({
            let d = if v < 0 {
                i64_text(v).drop_first()
            } else {
                i64_text(v)
            };
            &&& d.len() > 0
            &&& all_digits(d)
            &&& digits_value(d) == if v < 0 {
                -(v as int)
            } else {
                v as int
            }
            &&& (d.len() > 1 ==> d[0] != '0')
        }),
{
    if v < 0 {
        let m = (-v) as nat;
        lemma_nat_text_canonical(m);
        assert(i64_text(v).drop_first() =~= nat_text(m));
    } else {
        lemma_nat_text_canonical(v as nat);
        assert(is_digit(nat_text(v as nat)[0]));
    }
}

} // verus!
