//! Signed decimal integers as text: the literal grammar, its value, a parser and a printer.
use vstd::prelude::*;
use crate::text::push_char;

verus! {

pub open spec fn is_digit(c: char) -> bool {
    '0' <= c && c <= '9'
}

pub open spec fn digit_value(c: char) -> int {
    c as int - '0' as int
}

pub open spec fn all_digits(s: Seq<char>) -> bool {
    forall|i: int| 0 <= i < s.len() ==> is_digit(#[trigger] s[i])
}

/// The value of a run of decimal digits, most significant first.
pub open spec fn digits_value(s: Seq<char>) -> int
    decreases s.len(),
{
    if s.len() == 0 {
        0
    } else {
        digits_value(s.drop_last()) * 10 + digit_value(s.last())
    }
}

/// The value of a decimal literal: an optional `+` or `-`, then one digit or more.
pub open spec fn literal_value(s: Seq<char>) -> Option<int> {
    if s.len() > 0 && (s[0] == '-' || s[0] == '+') {
        let rest = s.drop_first();
        if rest.len() > 0 && all_digits(rest) {
            if s[0] == '-' {
                Some(-digits_value(rest))
            } else {
                Some(digits_value(rest))
            }
        } else {
            None
        }
    } else if s.len() > 0 && all_digits(s) {
        Some(digits_value(s))
    } else {
        None
    }
}

/// What reading `s` as an `i128` gives: a literal whose value fits.
pub open spec fn parse_i128(s: Seq<char>) -> Option<i128> {
    match literal_value(s) {
        Some(v) => if i128::MIN <= v <= i128::MAX {
            Some(v as i128)
        } else {
            None
        },
        None => None,
    }
}

pub open spec fn digit_char(d: int) -> char {
    ('0' as int + d) as char
}

/// The shortest run of digits for `n`.
pub open spec fn digits_of(n: nat) -> Seq<char>
    decreases n,
{
    if n < 10 {
        seq![digit_char(n as int)]
    } else {
        digits_of(n / 10).push(digit_char((n % 10) as int))
    }
}

/// The canonical decimal text of `v`: a `-` for negative values, no leading zeros.
pub open spec fn decimal(v: int) -> Seq<char> {
    if v < 0 {
        seq!['-'].add(digits_of((-v) as nat))
    } else {
        digits_of(v as nat)
    }
}

pub proof fn lemma_digits_value_monotone(s: Seq<char>, i: int, j: int)
    requires
        all_digits(s),
        0 <= i <= j <= s.len(),
    ensures
        0 <= digits_value(s.subrange(0, i)) <= digits_value(s.subrange(0, j)),
    decreases j - i,
{
    if i < j {
        lemma_digits_value_monotone(s, i, j - 1);
        assert(s.subrange(0, j).drop_last() =~= s.subrange(0, j - 1));
        assert(is_digit(s[j - 1]));
    } else {
        lemma_digits_value_nonneg(s.subrange(0, i));
    }
}

pub proof fn lemma_digits_value_nonneg(s: Seq<char>)
    requires
        all_digits(s),
    ensures
        digits_value(s) >= 0,
    decreases s.len(),
{
    if s.len() > 0 {
        assert(all_digits(s.drop_last())) by {
            assert forall|i: int| 0 <= i < s.drop_last().len() implies is_digit(
                #[trigger] s.drop_last()[i],
            ) by {
                assert(s.drop_last()[i] == s[i]);
            }
        }
        lemma_digits_value_nonneg(s.drop_last());
        assert(is_digit(s[s.len() - 1]));
    }
}

pub proof fn lemma_digits_of(n: nat)
    ensures
        digits_of(n).len() > 0,
        all_digits(digits_of(n)),
        digits_value(digits_of(n)) == n,
    decreases n,
{
    if n >= 10 {
        lemma_digits_of(n / 10);
        let s = digits_of(n);
        assert(s.drop_last() =~= digits_of(n / 10));
        assert(digit_value(digit_char((n % 10) as int)) == n % 10);
        assert(s.last() == digit_char((n % 10) as int));
        assert((n / 10) * 10 + n % 10 == n);
        assert forall|i: int| 0 <= i < s.len() implies is_digit(#[trigger] s[i]) by {
            if i < s.len() - 1 {
                assert(s[i] == digits_of(n / 10)[i]);
            }
        }
    } else {
        assert(digit_value(digit_char(n as int)) == n);
        assert(seq![digit_char(n as int)].drop_last() =~= Seq::<char>::empty());
        assert(digits_value(Seq::<char>::empty()) == 0);
    }
}

/// Reading the canonical text of an `i128` gives the same `i128` back.
pub proof fn lemma_parse_decimal(v: i128)
    ensures
        parse_i128(decimal(v as int)) == Some(v),
        decimal(v as int).len() > 0,
        decimal(v as int)[0] == '-' || is_digit(decimal(v as int)[0]),
{
    if v < 0 {
        let n = (-v) as nat;
        lemma_digits_of(n);
        let s = decimal(v as int);
        assert(s.drop_first() =~= digits_of(n));
    } else {
        lemma_digits_of(v as nat);
    }
}

/// A literal whose digits already exceed `limit` in a prefix is out of range.
proof fn lemma_too_large(s: Seq<char>, start: int, body: Seq<char>, k: int, limit: int)
    requires
        start == 0 || start == 1,
        start == 1 <==> (s.len() > 0 && (s[0] == '-' || s[0] == '+')),
        body == s.subrange(start, s.len() as int),
        0 < k <= body.len(),
        all_digits(body.subrange(0, k)),
        digits_value(body.subrange(0, k)) > limit,
        limit == (if s[0] == '-' { 0x8000_0000_0000_0000_0000_0000_0000_0000int } else {
            0x7fff_ffff_ffff_ffff_ffff_ffff_ffff_ffffint
        }),
    ensures
        parse_i128(s) is None,
{
    if start == 1 {
        assert(s.drop_first() =~= body);
    } else {
        assert(s =~= body);
    }
    if all_digits(body) {
        lemma_digits_value_monotone(body, k, body.len() as int);
        assert(body.subrange(0, body.len() as int) =~= body);
    }
}

/// Reads `s` as an `i128`, accepting exactly what `parse_i128` accepts.
pub fn parse_int(s: &[char]) -> (r: Option<i128>)
    ensures
        r == parse_i128(s@),
{
    let len = s.len();
    if len == 0 {
        return None;
    }
    let negative = s[0] == '-';
    let start: usize = if s[0] == '-' || s[0] == '+' { 1 } else { 0 };
    if start == len {
        return None;
    }
    let ghost body = s@.subrange(start as int, len as int);
    let limit: u128 = if negative { 0x8000_0000_0000_0000_0000_0000_0000_0000u128 } else {
        0x7fff_ffff_ffff_ffff_ffff_ffff_ffff_ffffu128
    };
    let mut m: u128 = 0;
    let mut i: usize = start;
    while i < len
        invariant
            start <= i <= len,
            len == s.len(),
            start < len,
            body == s@.subrange(start as int, len as int),
            start == 1 <==> (s@[0] == '-' || s@[0] == '+'),
            start == 0 || start == 1,
            negative == (s@[0] == '-'),
            limit == (if negative { 0x8000_0000_0000_0000_0000_0000_0000_0000u128 } else {
                0x7fff_ffff_ffff_ffff_ffff_ffff_ffff_ffffu128
            }),
            all_digits(body.subrange(0, i - start)),
            m as int == digits_value(body.subrange(0, i - start)),
            m <= limit,
        decreases len - i,
    {
        let c = s[i];
        if !('0' <= c && c <= '9') {
            proof {
                assert(body[i - start] == c);
                assert(!all_digits(body));
            }
            return None;
        }
        let d: u128 = (c as u32 - '0' as u32) as u128;
        let ghost prefix = body.subrange(0, i - start + 1);
        proof {
            assert(prefix.drop_last() =~= body.subrange(0, i - start));
            assert(prefix.last() == c);
            assert forall|k: int| 0 <= k < prefix.len() implies is_digit(#[trigger] prefix[k]) by {
                if k < prefix.len() - 1 {
                    assert(prefix[k] == body.subrange(0, i - start)[k]);
                }
            }
        }
        if m > limit / 10 {
            proof {
                assert(m * 10 + d > limit) by (nonlinear_arith)
                    requires
                        m > limit / 10,
                        d >= 0,
                ;
                lemma_too_large(s@, start as int, body, i - start + 1, limit as int);
            }
            return None;
        }
        assert(m * 10 <= limit) by (nonlinear_arith)
            requires m <= limit / 10;
        let next = m * 10 + d;
        if next > limit {
            proof {
                lemma_too_large(s@, start as int, body, i - start + 1, limit as int);
            }
            return None;
        }
        m = next;
        i = i + 1;
    }
    proof {
        assert(body.subrange(0, len - start) =~= body);
        if start == 1 {
            assert(s@.drop_first() =~= body);
        } else {
            assert(s@ =~= body);
        }
    }
    if negative {
        if m == 0x8000_0000_0000_0000_0000_0000_0000_0000u128 {
            Some(i128::MIN)
        } else {
            Some(-(m as i128))
        }
    } else {
        Some(m as i128)
    }
}

/// Appends the digits of `n` to `out`.
fn push_digits(n: u128, out: &mut String)
    ensures
        final(out)@ == old(out)@ + digits_of(n as nat),
    decreases n,
{
    if n >= 10 {
        push_digits(n / 10, out);
    }
    let d: u8 = (n % 10) as u8;
    let c = (48u8 + d) as char;
    assert(c == digit_char((n % 10) as int));
    push_char(out, c);
    proof {
        if n < 10 {
            assert(digits_of(n as nat) =~= seq![c]);
        }
    }
}

/// Appends the canonical decimal text of `v` to `out`.
pub fn push_decimal(v: i128, out: &mut String)
    ensures
        final(out)@ == old(out)@ + decimal(v as int),
{
    if v < 0 {
        push_char(out, '-');
        let m: u128 = ((-(v + 1)) as u128) + 1;
        push_digits(m, out);
        proof {
            assert(final(out)@ =~= old(out)@ + decimal(v as int));
        }
    } else {
        push_digits(v as u128, out);
    }
}

} // verus!
