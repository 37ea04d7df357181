//! ASCII decimal numbers as they appear on the wire: formatting of integers
//! and the parsing rules of `str::parse` for `i64` and `u64`.

use vstd::prelude::*;

verus! {

/// `b` is an ASCII digit.
pub open spec fn is_digit(b: u8) -> bool {
    48 <= b <= 57
}

/// Every byte of `s` is an ASCII digit.
pub open spec fn all_digits(s: Seq<u8>) -> bool {
    forall|i: int| 0 <= i < s.len() ==> is_digit(#[trigger] s[i])
}

/// The value of a string of ASCII digits, read in base ten.
pub open spec fn digits_value(s: Seq<u8>) -> nat
    decreases s.len(),
{
    if s.len() == 0 {
        0
    } else {
        digits_value(s.drop_last()) * 10 + (s.last() - 48) as nat
    }
}

/// The shortest base-ten spelling of `n`.
pub open spec fn nat_digits(n: nat) -> Seq<u8>
    decreases n,
{
    if n < 10 {
        seq![(n + 48) as u8]
    } else {
        nat_digits(n / 10).push(((n % 10) + 48) as u8)
    }
}

/// The spelling of an integer: a minus sign for negative values, then digits.
pub open spec fn int_digits(v: int) -> Seq<u8> {
    if v < 0 {
        seq![45u8] + nat_digits((-v) as nat)
    } else {
        nat_digits(v as nat)
    }
}

/// What `str::parse::<i64>` accepts: an optional `+` or `-`, then one or more
/// digits, with a value in range.
pub open spec fn spec_parse_i64(s: Seq<u8>) -> Option<i64> {
    let neg = s.len() > 0 && s[0] == 45;
    let body = if s.len() > 0 && (s[0] == 43 || s[0] == 45) { s.drop_first() } else { s };
    if body.len() == 0 || !all_digits(body) {
        None
    } else {
        let v: int = if neg { -(digits_value(body) as int) } else { digits_value(body) as int };
        if i64::MIN <= v <= i64::MAX {
            Some(v as i64)
        } else {
            None
        }
    }
}

/// What `str::parse::<u64>` accepts: an optional `+`, then one or more digits,
/// with a value in range.
pub open spec fn spec_parse_u64(s: Seq<u8>) -> Option<u64> {
    let body = if s.len() > 0 && s[0] == 43 { s.drop_first() } else { s };
    if body.len() == 0 || !all_digits(body) {
        None
    } else if digits_value(body) <= u64::MAX {
        Some(digits_value(body) as u64)
    } else {
        None
    }
}

/// The spelling of `n` is a non-empty run of digits that reads back as `n`.
pub proof fn lemma_nat_digits_shape(n: nat)
    ensures
        nat_digits(n).len() > 0,
        all_digits(nat_digits(n)),
        digits_value(nat_digits(n)) == n,
    decreases n,
{
    if n >= 10 {
        lemma_nat_digits_shape(n / 10);
        let d = nat_digits(n);
        assert(d.drop_last() =~= nat_digits(n / 10));
        assert(d.last() == ((n % 10) + 48) as u8);
        assert(n % 10 < 10);
        assert(d.last() - 48 == n % 10);
        assert(n == (n / 10) * 10 + n % 10) by (nonlinear_arith);
        assert(digits_value(d) == digits_value(d.drop_last()) * 10 + (d.last() - 48) as nat);
        assert(digits_value(d) == n);
    } else {
        let d = nat_digits(n);
        assert(d.drop_last() =~= Seq::<u8>::empty());
        assert(d.last() == (n + 48) as u8);
        assert(d.last() - 48 == n);
        assert(digits_value(d) == digits_value(d.drop_last()) * 10 + (d.last() - 48) as nat);
    }
}

/// Reading back the spelling of an `i64` gives the same value.
pub proof fn lemma_parse_i64_of_digits(v: i64)
    ensures
        spec_parse_i64(int_digits(v as int)) == Some(v),
{
    if v < 0 {
        lemma_nat_digits_shape((-v) as nat);
        let s = int_digits(v as int);
        assert(s.drop_first() =~= nat_digits((-v) as nat));
    } else {
        lemma_nat_digits_shape(v as nat);
        let s = nat_digits(v as nat);
        assert(is_digit(s[0]));
    }
}

/// Reading back the spelling of a `u64` gives the same value.
pub proof fn lemma_parse_u64_of_digits(v: u64)
    ensures
        spec_parse_u64(nat_digits(v as nat)) == Some(v),
{
    lemma_nat_digits_shape(v as nat);
    let s = nat_digits(v as nat);
    assert(is_digit(s[0]));
}

proof fn lemma_digits_value_prefix_le(s: Seq<u8>, k: int)
    requires
        0 <= k <= s.len(),
        all_digits(s),
    ensures
        digits_value(s.subrange(0, k)) <= digits_value(s),
    decreases s.len() - k,
{
    if k < s.len() {
        lemma_digits_value_prefix_le(s, k + 1);
        let p = s.subrange(0, k + 1);
        assert(p.drop_last() =~= s.subrange(0, k));
    } else {
        assert(s.subrange(0, k) =~= s);
    }
}

/// Appends the digits of `n` to `out`.
fn push_nat_digits(n: u128, out: &mut Vec<u8>)
    ensures
        final(out)@ == old(out)@ + nat_digits(n as nat),
    decreases n,
{
    if n >= 10 {
        push_nat_digits(n / 10, out);
    }
    let d: u8 = (n % 10) as u8;
    out.push(d + 48);
    proof {
        if n >= 10 {
            assert(nat_digits(n as nat) == nat_digits((n / 10) as nat).push(((n % 10) + 48) as u8));
        }
    }
}

/// The decimal spelling of an unsigned integer.
pub fn format_u128(n: u128) -> (out: Vec<u8>)
    ensures
        out@ == nat_digits(n as nat),
{
    let mut out: Vec<u8> = Vec::new();
    push_nat_digits(n, &mut out);
    assert(out@ =~= nat_digits(n as nat));
    out
}

/// The decimal spelling of a signed integer, as `i64::to_string` writes it.
pub fn format_i64(v: i64) -> (out: Vec<u8>)
    ensures
        out@ == int_digits(v as int),
{
    let mut out: Vec<u8> = Vec::new();
    if v < 0 {
        out.push(45);
        let mag: u128 = (0i128 - (v as i128)) as u128;
        push_nat_digits(mag, &mut out);
    } else {
        push_nat_digits(v as u128, &mut out);
    }
    assert(out@ =~= int_digits(v as int));
    out
}

/// Reads the digits `s[start..]`; `None` when one is not a digit, when there is
/// none, or when the value exceeds `limit`.
fn parse_digits(s: &[u8], start: usize, limit: u128) -> (r: Option<u128>)
    requires
        start <= s@.len(),
        limit <= u64::MAX as u128 + 1,
    ensures
        ({
            let body = s@.subrange(start as int, s@.len() as int);
            match r {
                Some(v) => body.len() > 0 && all_digits(body) && v == digits_value(body)
                    && v <= limit,
                None => body.len() == 0 || !all_digits(body) || digits_value(body) > limit,
            }
        }),
{
    let ghost body = s@.subrange(start as int, s@.len() as int);
    if start == s.len() {
        return None;
    }
    let mut acc: u128 = 0;
    let mut i: usize = start;
    while i < s.len()
        invariant
            start <= i <= s@.len(),
            body == s@.subrange(start as int, s@.len() as int),
            limit <= u64::MAX as u128 + 1,
            all_digits(s@.subrange(start as int, i as int)),
            acc == digits_value(s@.subrange(start as int, i as int)),
            acc <= limit,
        decreases s@.len() - i,
    {
        let b = s[i];
        if b < 48 || b > 57 {
            assert(body[i - start] == b);
            return None;
        }
        let next: u128 = acc * 10 + (b - 48) as u128;
        proof {
            let p = s@.subrange(start as int, i + 1);
            assert(p.drop_last() =~= s@.subrange(start as int, i as int));
            assert(all_digits(p));
        }
        if next > limit {
            proof {
                let p = s@.subrange(start as int, i + 1);
                if all_digits(body) {
                    assert(p =~= body.subrange(0, i + 1 - start));
                    lemma_digits_value_prefix_le(body, i + 1 - start);
                }
            }
            return None;
        }
        acc = next;
        i = i + 1;
    }
    assert(s@.subrange(start as int, i as int) =~= body);
    Some(acc)
}

/// Parses a signed decimal as `str::parse::<i64>` does.
pub fn parse_i64(s: &[u8]) -> (r: Option<i64>)
    ensures
        r == spec_parse_i64(s@),
{
    let neg = s.len() > 0 && s[0] == 45;
    let start: usize = if s.len() > 0 && (s[0] == 43 || s[0] == 45) { 1 } else { 0 };
    let ghost body = if s@.len() > 0 && (s@[0] == 43 || s@[0] == 45) { s@.drop_first() } else { s@ };
    assert(body =~= s@.subrange(start as int, s@.len() as int));
    let limit: u128 = if neg { 9223372036854775808 } else { 9223372036854775807 };
    match parse_digits(s, start, limit) {
        Some(m) => {
            if neg {
                Some((0i128 - (m as i128)) as i64)
            } else {
                Some(m as i64)
            }
        },
        None => None,
    }
}

/// Parses an unsigned decimal as `str::parse::<u64>` does.
pub fn parse_u64(s: &[u8]) -> (r: Option<u64>)
    ensures
        r == spec_parse_u64(s@),
{
    let start: usize = if s.len() > 0 && s[0] == 43 { 1 } else { 0 };
    let ghost body = if s@.len() > 0 && s@[0] == 43 { s@.drop_first() } else { s@ };
    assert(body =~= s@.subrange(start as int, s@.len() as int));
    match parse_digits(s, start, 18446744073709551615) {
        Some(m) => Some(m as u64),
        None => None,
    }
}

} // verus!
