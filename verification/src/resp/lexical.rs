//! The lexical layer of the wire format: line ends, the grammar of double
//! payloads, and the grammar and canonical form of big-number payloads.

use vstd::prelude::*;
use super::decimal::{all_digits, digits_value, is_digit, is_numeral, nat_decimal};

verus! {

pub const CR: u8 = 13;
pub const LF: u8 = 10;

/// Whether a line end (`\r\n`) starts at index `i` of `s`.
pub open spec fn crlf_at(s: Seq<u8>, i: int) -> bool {
    0 <= i && i + 1 < s.len() && s[i] == CR && s[i + 1] == LF
}

/// The index of the first line end at or after `i`.
pub open spec fn crlf_from(s: Seq<u8>, i: int) -> Option<int>
    decreases s.len() - i,
{
    if i < 0 || i + 1 >= s.len() {
        None
    } else if crlf_at(s, i) {
        Some(i)
    } else {
        crlf_from(s, i + 1)
    }
}

/// The index of the first line end in `s`.
pub open spec fn first_crlf(s: Seq<u8>) -> Option<int> {
    crlf_from(s, 0)
}

/// The index of the first occurrence of `b` at or after `i`.
pub open spec fn find_byte_from(s: Seq<u8>, b: u8, i: int) -> Option<int>
    decreases s.len() - i,
{
    if i < 0 || i >= s.len() {
        None
    } else if s[i] == b {
        Some(i)
    } else {
        find_byte_from(s, b, i + 1)
    }
}

/// The index of the first occurrence of `b` in `s`.
pub open spec fn find_byte(s: Seq<u8>, b: u8) -> Option<int> {
    find_byte_from(s, b, 0)
}

pub proof fn lemma_crlf_from(s: Seq<u8>, i: int)
    requires
        0 <= i,
    ensures
        match crlf_from(s, i) {
            Some(k) => i <= k && crlf_at(s, k) && forall|j: int| i <= j < k ==> !crlf_at(s, j),
            None => forall|j: int| i <= j ==> !crlf_at(s, j),
        },
    decreases s.len() - i,
{
    if i + 1 < s.len() && !crlf_at(s, i) {
        lemma_crlf_from(s, i + 1);
    }
}

/// A line end at `k` with none before it is the first one.
pub proof fn lemma_first_crlf_at(s: Seq<u8>, k: int)
    requires
        crlf_at(s, k),
        forall|j: int| 0 <= j < k ==> !crlf_at(s, j),
    ensures
        first_crlf(s) == Some(k),
{
    lemma_crlf_from(s, 0);
}

pub proof fn lemma_find_byte_from(s: Seq<u8>, b: u8, i: int)
    requires
        0 <= i,
    ensures
        match find_byte_from(s, b, i) {
            Some(k) => i <= k < s.len() && s[k] == b && forall|j: int| i <= j < k ==> s[j] != b,
            None => forall|j: int| i <= j < s.len() ==> s[j] != b,
        },
    decreases s.len() - i,
{
    if i < s.len() && s[i] != b {
        lemma_find_byte_from(s, b, i + 1);
    }
}

/// An occurrence at `k` with none before it is the first one.
pub proof fn lemma_find_byte_at(s: Seq<u8>, b: u8, k: int)
    requires
        0 <= k < s.len(),
        s[k] == b,
        forall|j: int| 0 <= j < k ==> s[j] != b,
    ensures
        find_byte(s, b) == Some(k),
{
    lemma_find_byte_from(s, b, 0);
}

/// No occurrence at all.
pub proof fn lemma_find_byte_none(s: Seq<u8>, b: u8)
    requires
        forall|j: int| 0 <= j < s.len() ==> s[j] != b,
    ensures
        find_byte(s, b) is None,
{
    lemma_find_byte_from(s, b, 0);
}

/* Doubles */

pub open spec fn ascii_lower(b: u8) -> u8 {
    if 65 <= b <= 90 {
        (b + 32) as u8
    } else {
        b
    }
}

pub open spec fn lower_all(s: Seq<u8>) -> Seq<u8> {
    s.map_values(|b: u8| ascii_lower(b))
}

/// `Digit+ | Digit+ '.' Digit* | Digit* '.' Digit+`
pub open spec fn is_mantissa(m: Seq<u8>) -> bool {
    match find_byte(m, 46u8) {
        None => is_numeral(m),
        Some(d) => m.len() >= 2 && all_digits(m.subrange(0, d)) && all_digits(
            m.subrange(d + 1, m.len() as int),
        ),
    }
}

/// `Sign? Digit+`
pub open spec fn is_exponent(x: Seq<u8>) -> bool {
    if x.len() > 0 && (x[0] == 43u8 || x[0] == 45u8) {
        is_numeral(x.drop_first())
    } else {
        is_numeral(x)
    }
}

/// `Mantissa ('e' Exponent)?`, over lower-cased text.
pub open spec fn is_number(l: Seq<u8>) -> bool {
    match find_byte(l, 101u8) {
        None => is_mantissa(l),
        Some(k) => is_mantissa(l.subrange(0, k)) && is_exponent(l.subrange(k + 1, l.len() as int)),
    }
}

pub open spec fn unsigned_part(l: Seq<u8>) -> Seq<u8> {
    if l.len() > 0 && (l[0] == 43u8 || l[0] == 45u8) {
        l.drop_first()
    } else {
        l
    }
}

/// The texts that `str::parse::<f64>` accepts: an optional sign, then `inf`,
/// `infinity`, `nan` or a decimal number with an optional exponent, all
/// without regard to ASCII case.
pub open spec fn is_float_text(s: Seq<u8>) -> bool {
    let body = unsigned_part(lower_all(s));
    ||| body == seq![105u8, 110u8, 102u8]
    ||| body == seq![105u8, 110u8, 102u8, 105u8, 110u8, 105u8, 116u8, 121u8]
    ||| body == seq![110u8, 97u8, 110u8]
    ||| is_number(body)
}

/* Big numbers */

/// The sign and the magnitude text that `num_bigint` reads from a decimal text.
pub open spec fn bignum_split(s: Seq<u8>) -> (bool, Seq<u8>) {
    if s.len() > 0 && s[0] == 45u8 && !(s.len() > 1 && s[1] == 43u8) {
        (true, s.drop_first())
    } else if s.len() > 0 && s[0] == 43u8 && !(s.len() > 1 && s[1] == 43u8) {
        (false, s.drop_first())
    } else {
        (false, s)
    }
}

pub open spec fn digit_or_underscore(b: u8) -> bool {
    is_digit(b) || b == 95u8
}

/// Whether `num_bigint` reads `s` as a decimal integer.
pub open spec fn bignum_syntax(s: Seq<u8>) -> bool {
    let u = bignum_split(s).1;
    &&& u.len() > 0
    &&& u[0] != 95u8
    &&& forall|i: int| 0 <= i < u.len() ==> #[trigger] digit_or_underscore(u[i])
}

/// The digits of a magnitude text, underscores removed.
pub open spec fn strip_underscores(u: Seq<u8>) -> Seq<u8> {
    u.filter(|b: u8| b != 95u8)
}

/// The canonical decimal text of the integer that `s` denotes: a `-` for a
/// negative value, then the digits without leading zeros.
pub open spec fn bignum_canonical(s: Seq<u8>) -> Option<Seq<u8>> {
    if bignum_syntax(s) {
        let (neg, u) = bignum_split(s);
        let v = digits_value(strip_underscores(u));
        if neg && v > 0 {
            Some(seq![45u8] + nat_decimal(v))
        } else {
            Some(nat_decimal(v))
        }
    } else {
        None
    }
}

/// A big-number payload in the form that rendering a parsed big integer gives.
pub open spec fn is_canonical_bignum(s: Seq<u8>) -> bool {
    bignum_canonical(s) == Some(s)
}

} // verus!

verus! {

/// The position of the first line end in `s[pos..]`.
pub fn find_crlf(s: &[u8], pos: usize) -> (res: Option<usize>)
    requires
        pos <= s@.len(),
    ensures
        match first_crlf(s@.subrange(pos as int, s@.len() as int)) {
            Some(e) => 0 <= e && pos + e + 1 < s@.len() && res == Some((pos + e) as usize),
            None => res is None,
        },
{
    proof {
        lemma_crlf_from(s@.subrange(pos as int, s@.len() as int), 0);
    }
    let ghost t = s@.subrange(pos as int, s@.len() as int);
    let mut i = pos;
    while s.len() - i >= 2
        invariant
            pos <= i <= s@.len(),
            t == s@.subrange(pos as int, s@.len() as int),
            first_crlf(t) == crlf_from(t, i - pos),
        decreases s@.len() - i,
    {
        if s[i] == CR && s[i + 1] == LF {
            assert(crlf_at(t, i - pos));
            return Some(i);
        }
        assert(!crlf_at(t, i - pos));
        i = i + 1;
    }
    None
}

/// The position of the first `b` in `s[start..end]`.
pub fn find_byte_in(s: &[u8], start: usize, end: usize, b: u8) -> (res: Option<usize>)
    requires
        start <= end <= s@.len(),
    ensures
        match find_byte(s@.subrange(start as int, end as int), b) {
            Some(k) => 0 <= k < end - start && res == Some((start + k) as usize),
            None => res is None,
        },
        res matches Some(r) ==> start <= r < end && s@[r as int] == b,
{
    proof {
        lemma_find_byte_from(s@.subrange(start as int, end as int), b, 0);
    }
    let ghost t = s@.subrange(start as int, end as int);
    let mut i = start;
    while i < end
        invariant
            start <= i <= end <= s@.len(),
            t == s@.subrange(start as int, end as int),
            find_byte(t, b) == find_byte_from(t, b, i - start),
        decreases end - i,
    {
        if s[i] == b {
            return Some(i);
        }
        i = i + 1;
    }
    None
}

/// Whether `s[start..end]` holds only digits.
pub fn digits_in(s: &[u8], start: usize, end: usize) -> (res: bool)
    requires
        start <= end <= s@.len(),
    ensures
        res == all_digits(s@.subrange(start as int, end as int)),
{
    let ghost t = s@.subrange(start as int, end as int);
    let mut i = start;
    while i < end
        invariant
            start <= i <= end <= s@.len(),
            t == s@.subrange(start as int, end as int),
            all_digits(t.subrange(0, i - start)),
        decreases end - i,
    {
        if s[i] < 48 || s[i] > 57 {
            assert(!is_digit(t[i - start]));
            return false;
        }
        i = i + 1;
        assert(all_digits(t.subrange(0, i - start)));
    }
    assert(t.subrange(0, end - start) =~= t);
    true
}

fn mantissa_in(s: &[u8], start: usize, end: usize) -> (res: bool)
    requires
        start <= end <= s@.len(),
    ensures
        res == is_mantissa(s@.subrange(start as int, end as int)),
{
    let ghost t = s@.subrange(start as int, end as int);
    match find_byte_in(s, start, end, 46u8) {
        None => start < end && digits_in(s, start, end),
        Some(d) => {
            assert(t.subrange(0, d - start) =~= s@.subrange(start as int, d as int));
            assert(t.subrange(d - start + 1, t.len() as int) =~= s@.subrange(d + 1, end as int));
            end - start >= 2 && digits_in(s, start, d) && digits_in(s, d + 1, end)
        },
    }
}

fn exponent_in(s: &[u8], start: usize, end: usize) -> (res: bool)
    requires
        start <= end <= s@.len(),
    ensures
        res == is_exponent(s@.subrange(start as int, end as int)),
{
    let ghost t = s@.subrange(start as int, end as int);
    if start < end && (s[start] == 43u8 || s[start] == 45u8) {
        assert(t.drop_first() =~= s@.subrange(start + 1, end as int));
        start + 1 < end && digits_in(s, start + 1, end)
    } else {
        proof {
            if start < end {
                assert(t[0] == s@[start as int]);
            }
        }
        start < end && digits_in(s, start, end)
    }
}

fn number_in(s: &[u8], start: usize, end: usize) -> (res: bool)
    requires
        start <= end <= s@.len(),
    ensures
        res == is_number(s@.subrange(start as int, end as int)),
{
    let ghost t = s@.subrange(start as int, end as int);
    match find_byte_in(s, start, end, 101u8) {
        None => mantissa_in(s, start, end),
        Some(k) => {
            assert(t.subrange(0, k - start) =~= s@.subrange(start as int, k as int));
            assert(t.subrange(k - start + 1, t.len() as int) =~= s@.subrange(k + 1, end as int));
            mantissa_in(s, start, k) && exponent_in(s, k + 1, end)
        },
    }
}

pub(crate) fn same_bytes(s: &[u8], start: usize, end: usize, word: &[u8]) -> (res: bool)
    requires
        start <= end <= s@.len(),
    ensures
        res == (s@.subrange(start as int, end as int) == word@),
{
    if end - start != word.len() {
        return false;
    }
    let mut i: usize = 0;
    while i < word.len()
        invariant
            end - start == word@.len(),
            start <= end <= s@.len(),
            0 <= i <= word@.len(),
            forall|j: int| 0 <= j < i ==> s@[start + j] == word@[j],
        decreases word.len() - i,
    {
        if s[start + i] != word[i] {
            assert(s@.subrange(start as int, end as int)[i as int] != word@[i as int]);
            return false;
        }
        i = i + 1;
    }
    assert(s@.subrange(start as int, end as int) =~= word@);
    true
}

/// Whether `s[start..end]` is a text that `str::parse::<f64>` accepts.
pub fn float_text_in(s: &[u8], start: usize, end: usize) -> (res: bool)
    requires
        start <= end <= s@.len(),
    ensures
        res == is_float_text(s@.subrange(start as int, end as int)),
{
    let ghost t = s@.subrange(start as int, end as int);
    let mut l: Vec<u8> = Vec::new();
    let mut i = start;
    while i < end
        invariant
            start <= i <= end <= s@.len(),
            t == s@.subrange(start as int, end as int),
            l@ =~= lower_all(t.subrange(0, i - start)),
        decreases end - i,
    {
        let b = s[i];
        let lb = if 65 <= b && b <= 90 {
            b + 32
        } else {
            b
        };
        l.push(lb);
        i = i + 1;
        assert(lower_all(t.subrange(0, i - start)) =~= lower_all(t.subrange(0, i - start - 1)).push(
            ascii_lower(t[i - start - 1]),
        ));
    }
    assert(t.subrange(0, end - start) =~= t);
    let ghost lt = lower_all(t);
    let n = l.len();
    let b0: usize = if n > 0 && (l[0] == 43u8 || l[0] == 45u8) {
        1
    } else {
        0
    };
    let ls = l.as_slice();
    assert(ls@.subrange(b0 as int, n as int) =~= unsigned_part(lt));
    let inf: [u8; 3] = [105u8, 110u8, 102u8];
    let infinity: [u8; 8] = [105u8, 110u8, 102u8, 105u8, 110u8, 105u8, 116u8, 121u8];
    let nan: [u8; 3] = [110u8, 97u8, 110u8];
    assert(inf@ =~= seq![105u8, 110u8, 102u8]);
    assert(infinity@ =~= seq![105u8, 110u8, 102u8, 105u8, 110u8, 105u8, 116u8, 121u8]);
    assert(nan@ =~= seq![110u8, 97u8, 110u8]);
    same_bytes(ls, b0, n, inf.as_slice()) || same_bytes(ls, b0, n, infinity.as_slice())
        || same_bytes(ls, b0, n, nan.as_slice()) || number_in(ls, b0, n)
}

} // verus!
