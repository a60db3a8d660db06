//! Decimal numerals: the grammar that the wire format uses for integers and
//! lengths, their values, and the canonical rendering of an integer.

use vstd::prelude::*;

verus! {

pub open spec fn is_digit(b: u8) -> bool {
    48 <= b <= 57
}

pub open spec fn all_digits(s: Seq<u8>) -> bool {
    forall|i: int| 0 <= i < s.len() ==> #[trigger] is_digit(s[i])
}

/// The value of a run of decimal digits, most significant first.
pub open spec fn digits_value(s: Seq<u8>) -> nat
    decreases s.len(),
{
    if s.len() == 0 {
        0
    } else {
        digits_value(s.drop_last()) * 10 + (s.last() - 48) as nat
    }
}

/// A non-empty run of digits.
pub open spec fn is_numeral(s: Seq<u8>) -> bool {
    s.len() > 0 && all_digits(s)
}

/// The value of an optionally `+`-signed numeral, or `None` when `s` is not one.
pub open spec fn unsigned_value(s: Seq<u8>) -> Option<nat> {
    if s.len() > 0 && s[0] == 43u8 && is_numeral(s.drop_first()) {
        Some(digits_value(s.drop_first()))
    } else if is_numeral(s) {
        Some(digits_value(s))
    } else {
        None
    }
}

/// The value of an optionally `+`- or `-`-signed numeral, or `None` when `s` is not one.
pub open spec fn signed_value(s: Seq<u8>) -> Option<int> {
    if s.len() > 0 && s[0] == 45u8 && is_numeral(s.drop_first()) {
        Some(-digits_value(s.drop_first()))
    } else {
        match unsigned_value(s) {
            Some(v) => Some(v as int),
            None => None,
        }
    }
}

/// What `str::parse::<i64>` accepts, with the value it gives.
pub open spec fn i64_text_value(s: Seq<u8>) -> Option<i64> {
    match signed_value(s) {
        Some(v) => if i64::MIN <= v <= i64::MAX { Some(v as i64) } else { None },
        None => None,
    }
}

/// What `str::parse::<isize>` accepts, with the value it gives.
pub open spec fn isize_text_value(s: Seq<u8>) -> Option<isize> {
    match signed_value(s) {
        Some(v) => if isize::MIN <= v <= isize::MAX { Some(v as isize) } else { None },
        None => None,
    }
}

/// What `str::parse::<usize>` accepts, with the value it gives.
pub open spec fn usize_text_value(s: Seq<u8>) -> Option<usize> {
    match unsigned_value(s) {
        Some(v) => if v <= usize::MAX { Some(v as usize) } else { None },
        None => None,
    }
}

/// What `str::parse::<u64>` accepts, with the value it gives.
pub open spec fn u64_text_value(s: Seq<u8>) -> Option<u64> {
    match unsigned_value(s) {
        Some(v) => if v <= u64::MAX { Some(v as u64) } else { None },
        None => None,
    }
}

/// The shortest decimal numeral of `n`.
pub open spec fn nat_decimal(n: nat) -> Seq<u8>
    decreases n,
{
    if n < 10 {
        seq![(48 + n) as u8]
    } else {
        nat_decimal(n / 10).push((48 + n % 10) as u8)
    }
}

/// The decimal rendering of an integer, with a leading `-` when it is negative.
pub open spec fn int_decimal(i: int) -> Seq<u8> {
    if i < 0 {
        seq![45u8] + nat_decimal((-i) as nat)
    } else {
        nat_decimal(i as nat)
    }
}

pub proof fn lemma_digits_value_prefix(s: Seq<u8>, i: int, j: int)
    requires
        0 <= i <= j <= s.len(),
        all_digits(s),
    ensures
        digits_value(s.subrange(0, i)) <= digits_value(s.subrange(0, j)),
    decreases j - i,
{
    if i < j {
        lemma_digits_value_prefix(s, i, j - 1);
        assert(s.subrange(0, j).drop_last() =~= s.subrange(0, j - 1));
    }
}

pub proof fn lemma_nat_decimal(n: nat)
    ensures
        is_numeral(nat_decimal(n)),
        digits_value(nat_decimal(n)) == n,
        nat_decimal(n).len() >= 1,
    decreases n,
{
    if n < 10 {
        assert(nat_decimal(n).drop_last() =~= Seq::<u8>::empty());
        assert(digits_value(Seq::<u8>::empty()) == 0);
    } else {
        lemma_nat_decimal(n / 10);
        let s = nat_decimal(n);
        assert(s.drop_last() =~= nat_decimal(n / 10));
        assert((n / 10) * 10 + n % 10 == n) by (nonlinear_arith);
        assert(s.last() == (48 + n % 10) as u8);
        assert(digits_value(s) == digits_value(s.drop_last()) * 10 + (s.last() - 48) as nat);
        assert(all_digits(s)) by {
            assert forall|k: int| 0 <= k < s.len() implies #[trigger] is_digit(s[k]) by {
                if k < s.len() - 1 {
                    assert(s[k] == nat_decimal(n / 10)[k]);
                }
            }
        }
    }
}

/// Reading back a rendered integer gives the integer.
pub proof fn lemma_int_decimal_roundtrip(i: int)
    ensures
        signed_value(int_decimal(i)) == Some(i),
        int_decimal(i).len() >= 1,
        forall|k: int| 0 <= k < int_decimal(i).len() ==> {
            let b = #[trigger] int_decimal(i)[k];
            b == 45u8 || is_digit(b)
        },
{
    if i < 0 {
        lemma_nat_decimal((-i) as nat);
        assert((seq![45u8] + nat_decimal((-i) as nat)).drop_first() =~= nat_decimal((-i) as nat));
    } else {
        lemma_nat_decimal(i as nat);
        assert(is_digit(nat_decimal(i as nat)[0]));
    }
}

/// Parses `s[start..end]` as a non-empty run of digits whose value fits in a `u64`.
pub fn parse_digits(s: &[u8], start: usize, end: usize) -> (res: Option<u64>)
    requires
        start <= end <= s@.len(),
    ensures
        ({
            let t = s@.subrange(start as int, end as int);
            match res {
                Some(v) => is_numeral(t) && digits_value(t) == v,
                None => !is_numeral(t) || digits_value(t) > u64::MAX,
            }
        }),
{
    let ghost t = s@.subrange(start as int, end as int);
    if start == end {
        return None;
    }
    let mut v: u64 = 0;
    let mut i = start;
    let mut overflow = false;
    while i < end
        invariant
            start <= i <= end <= s@.len(),
            t == s@.subrange(start as int, end as int),
            all_digits(t.subrange(0, i - start)),
            !overflow ==> v == digits_value(t.subrange(0, i - start)),
            overflow ==> digits_value(t.subrange(0, i - start)) > u64::MAX,
        decreases end - i,
    {
        let b = s[i];
        if b < 48 || b > 57 {
            assert(t[i - start] == b);
            assert(!is_digit(t[i - start]));
            return None;
        }
        let d = (b - 48) as u64;
        let ghost prev = t.subrange(0, i - start);
        let ghost next = t.subrange(0, i - start + 1);
        assert(next.drop_last() =~= prev);
        assert(next.last() == b);
        if !overflow {
            if v > (u64::MAX - d) / 10 {
                overflow = true;
                assert(v * 10 + d > u64::MAX) by (nonlinear_arith)
                    requires v > (u64::MAX - d) / 10, d <= 9;
            } else {
                assert(v * 10 + d <= u64::MAX) by (nonlinear_arith)
                    requires v <= (u64::MAX - d) / 10, d <= 9;
                v = v * 10 + d;
            }
        }
        i = i + 1;
        assert(all_digits(t.subrange(0, i - start)));
    }
    assert(t.subrange(0, end - start) =~= t);
    if overflow {
        None
    } else {
        Some(v)
    }
}

} // verus!

verus! {

/// Reads `s[start..end]` as a sign-less numeral, optionally `+`-prefixed,
/// whose value fits in a `u64`.
fn parse_unsigned(s: &[u8], start: usize, end: usize) -> (res: Option<u64>)
    requires
        start <= end <= s@.len(),
    ensures
        ({
            let t = s@.subrange(start as int, end as int);
            match res {
                Some(v) => unsigned_value(t) == Some(v as nat),
                None => unsigned_value(t) is None || unsigned_value(t).unwrap() > u64::MAX,
            }
        }),
{
    let ghost t = s@.subrange(start as int, end as int);
    if start < end && s[start] == 43u8 {
        assert(t[0] == s@[start as int]);
        assert(!is_digit(t[0]));
        assert(t.drop_first() =~= s@.subrange(start + 1, end as int));
        parse_digits(s, start + 1, end)
    } else {
        proof {
            if start < end {
                assert(t[0] == s@[start as int]);
            }
        }
        parse_digits(s, start, end)
    }
}

/// Reads `s[start..end]` as `str::parse::<u64>` does.
pub fn parse_u64_text(s: &[u8], start: usize, end: usize) -> (res: Option<u64>)
    requires
        start <= end <= s@.len(),
    ensures
        res == u64_text_value(s@.subrange(start as int, end as int)),
{
    parse_unsigned(s, start, end)
}

/// Reads `s[start..end]` as `str::parse::<usize>` does.
pub fn parse_usize_text(s: &[u8], start: usize, end: usize) -> (res: Option<usize>)
    requires
        start <= end <= s@.len(),
    ensures
        res == usize_text_value(s@.subrange(start as int, end as int)),
{
    match parse_unsigned(s, start, end) {
        Some(v) => if v as u128 <= usize::MAX as u128 {
            Some(v as usize)
        } else {
            None
        },
        None => None,
    }
}

/// Reads `s[start..end]` as a signed numeral; the value is given as a sign
/// and a magnitude that fits in a `u64`.
fn parse_signed(s: &[u8], start: usize, end: usize) -> (res: Option<(bool, u64)>)
    requires
        start <= end <= s@.len(),
    ensures
        ({
            let t = s@.subrange(start as int, end as int);
            match res {
                Some((neg, m)) => signed_value(t) == Some(if neg { -(m as int) } else { m as int }),
                None => match signed_value(t) {
                    Some(v) => v > u64::MAX || v < -(u64::MAX as int),
                    None => true,
                },
            }
        }),
{
    let ghost t = s@.subrange(start as int, end as int);
    if start < end && s[start] == 45u8 {
        assert(t[0] == s@[start as int]);
        assert(!is_digit(t[0]));
        assert(t.drop_first() =~= s@.subrange(start + 1, end as int));
        match parse_digits(s, start + 1, end) {
            Some(m) => Some((true, m)),
            None => None,
        }
    } else {
        proof {
            if start < end {
                assert(t[0] == s@[start as int]);
            }
        }
        match parse_unsigned(s, start, end) {
            Some(m) => Some((false, m)),
            None => None,
        }
    }
}

/// Reads `s[start..end]` as `str::parse::<i64>` does.
pub fn parse_i64_text(s: &[u8], start: usize, end: usize) -> (res: Option<i64>)
    requires
        start <= end <= s@.len(),
    ensures
        res == i64_text_value(s@.subrange(start as int, end as int)),
{
    match parse_signed(s, start, end) {
        Some((neg, m)) => {
            if neg {
                if m <= 9223372036854775808u64 {
                    if m == 9223372036854775808u64 {
                        Some(i64::MIN)
                    } else {
                        Some(-(m as i64))
                    }
                } else {
                    None
                }
            } else {
                if m <= 9223372036854775807u64 {
                    Some(m as i64)
                } else {
                    None
                }
            }
        },
        None => None,
    }
}

/// Reads `s[start..end]` as `str::parse::<isize>` does.
pub fn parse_isize_text(s: &[u8], start: usize, end: usize) -> (res: Option<isize>)
    requires
        start <= end <= s@.len(),
    ensures
        res == isize_text_value(s@.subrange(start as int, end as int)),
{
    match parse_signed(s, start, end) {
        Some((neg, m)) => {
            let mi = m as i128;
            let v: i128 = if neg { -mi } else { mi };
            if isize::MIN as i128 <= v && v <= isize::MAX as i128 {
                Some(v as isize)
            } else {
                None
            }
        },
        None => None,
    }
}

/// Appends the shortest decimal numeral of `n`.
pub fn push_decimal(out: &mut Vec<u8>, n: u128)
    ensures
        final(out)@ == old(out)@ + nat_decimal(n as nat),
    decreases n,
{
    if n < 10 {
        out.push((48 + n) as u8);
    } else {
        push_decimal(out, n / 10);
        out.push((48 + n % 10) as u8);
    }
}

/// Appends the decimal rendering of `i`.
pub fn push_int(out: &mut Vec<u8>, i: i64)
    ensures
        final(out)@ == old(out)@ + int_decimal(i as int),
{
    if i < 0 {
        out.push(45u8);
        let m: u128 = if i == i64::MIN {
            9223372036854775808u128
        } else {
            (-i) as u128
        };
        let ghost mid = out@;
        push_decimal(out, m);
        assert(out@ =~= old(out)@ + int_decimal(i as int));
    } else {
        push_decimal(out, i as u128);
    }
}

} // verus!
