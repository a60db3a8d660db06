//! The numbers that double texts denote, and when two of them are the same
//! number: texts compare by their exact decimal value, with every zero
//! equal to every other, infinities by sign, and `nan` equal to itself.

use vstd::prelude::*;
use super::decimal::{all_digits, digits_value, is_digit};
use super::lexical::{
    ascii_lower, find_byte, find_byte_in, float_text_in, is_float_text, lower_all, same_bytes,
    unsigned_part,
};

verus! {

/// Denoting the same number is an equivalence between double texts.
pub proof fn law_same_double_equivalence(x: Seq<u8>, y: Seq<u8>, z: Seq<u8>)
    ensures
        same_double(x, x),
        same_double(x, y) ==> same_double(y, x),
        same_double(x, y) && same_double(y, z) ==> same_double(x, z),
{
}

/* Arithmetic on numerals */

/// A bound on the numbers that are handled as machine integers.
pub open spec fn small_bound() -> nat {
    0x10000000000000000000000000
}

/// One digit step of comparing `10 * x + a + p` with `10 * y + b + q`.
proof fn lemma_digit_step(x: int, a: int, p: int, y: int, b: int, q: int)
    requires
        0 <= a < 10,
        0 <= b < 10,
        0 <= p,
        0 <= q,
    ensures
        (10 * x + a + p == 10 * y + b + q) <==> ((a + p) % 10 == (b + q) % 10 && x + (a + p) / 10
            == y + (b + q) / 10),
{
    let r1 = (a + p) % 10;
    let r2 = (b + q) % 10;
    let c1 = (a + p) / 10;
    let c2 = (b + q) / 10;
    assert(a + p == 10 * c1 + r1 && 0 <= r1 < 10);
    assert(b + q == 10 * c2 + r2 && 0 <= r2 < 10);
}

/// Whether the numeral `s1[st1..en1]` plus `p` equals the numeral
/// `s2[st2..en2]` plus `q`.
pub fn sum_eq(s1: &[u8], st1: usize, en1: usize, p: u128, s2: &[u8], st2: usize, en2: usize, q: u128) -> (res: bool)
    requires
        st1 <= en1 <= s1@.len(),
        st2 <= en2 <= s2@.len(),
        all_digits(s1@.subrange(st1 as int, en1 as int)),
        all_digits(s2@.subrange(st2 as int, en2 as int)),
        p <= small_bound(),
        q <= small_bound(),
    ensures
        res == (digits_value(s1@.subrange(st1 as int, en1 as int)) + p == digits_value(
            s2@.subrange(st2 as int, en2 as int),
        ) + q),
{
    let ghost goal = digits_value(s1@.subrange(st1 as int, en1 as int)) + p == digits_value(
        s2@.subrange(st2 as int, en2 as int),
    ) + q;
    let mut i1 = en1;
    let mut i2 = en2;
    let mut c1 = p;
    let mut c2 = q;
    loop
        invariant
            st1 <= i1 <= en1 <= s1@.len(),
            st2 <= i2 <= en2 <= s2@.len(),
            all_digits(s1@.subrange(st1 as int, en1 as int)),
            all_digits(s2@.subrange(st2 as int, en2 as int)),
            c1 <= small_bound(),
            c2 <= small_bound(),
            goal == (digits_value(s1@.subrange(st1 as int, en1 as int)) + p == digits_value(
                s2@.subrange(st2 as int, en2 as int),
            ) + q),
            goal == (digits_value(s1@.subrange(st1 as int, i1 as int)) + c1 == digits_value(
                s2@.subrange(st2 as int, i2 as int),
            ) + c2),
        decreases i1 + i2,
    {
        if i1 == st1 && i2 == st2 {
            assert(s1@.subrange(st1 as int, i1 as int).len() == 0);
            assert(s2@.subrange(st2 as int, i2 as int).len() == 0);
            return c1 == c2;
        }
        let ghost t1 = s1@.subrange(st1 as int, i1 as int);
        let ghost t2 = s2@.subrange(st2 as int, i2 as int);
        let a: u8 = if i1 > st1 {
            assert(s1@.subrange(st1 as int, en1 as int)[i1 - 1 - st1] == s1@[i1 - 1]);
            assert(is_digit(s1@.subrange(st1 as int, en1 as int)[i1 - 1 - st1]));
            s1[i1 - 1] - 48
        } else {
            0
        };
        let b: u8 = if i2 > st2 {
            assert(s2@.subrange(st2 as int, en2 as int)[i2 - 1 - st2] == s2@[i2 - 1]);
            assert(is_digit(s2@.subrange(st2 as int, en2 as int)[i2 - 1 - st2]));
            s2[i2 - 1] - 48
        } else {
            0
        };
        let n1 = if i1 > st1 {
            i1 - 1
        } else {
            i1
        };
        let n2 = if i2 > st2 {
            i2 - 1
        } else {
            i2
        };
        proof {
            let u1 = s1@.subrange(st1 as int, n1 as int);
            let u2 = s2@.subrange(st2 as int, n2 as int);
            if i1 > st1 {
                assert(t1.drop_last() =~= u1);
                assert(digits_value(t1) == digits_value(u1) * 10 + a);
            } else {
                assert(t1.len() == 0 && u1.len() == 0);
            }
            if i2 > st2 {
                assert(t2.drop_last() =~= u2);
                assert(digits_value(t2) == digits_value(u2) * 10 + b);
            } else {
                assert(t2.len() == 0 && u2.len() == 0);
            }
            lemma_digit_step(
                digits_value(u1) as int,
                a as int,
                c1 as int,
                digits_value(u2) as int,
                b as int,
                c2 as int,
            );
        }
        let x1 = a as u128 + c1;
        let x2 = b as u128 + c2;
        if x1 % 10 != x2 % 10 {
            return false;
        }
        c1 = x1 / 10;
        c2 = x2 / 10;
        i1 = n1;
        i2 = n2;
    }
}

/// The value of the numeral `s[st..en]` when it is at most
/// [`small_bound`].
pub fn bounded_value(s: &[u8], st: usize, en: usize) -> (res: Option<u128>)
    requires
        st <= en <= s@.len(),
        all_digits(s@.subrange(st as int, en as int)),
    ensures
        match res {
            Some(v) => v == digits_value(s@.subrange(st as int, en as int)) && v <= small_bound(),
            None => digits_value(s@.subrange(st as int, en as int)) > small_bound(),
        },
{
    let ghost t = s@.subrange(st as int, en as int);
    let mut v: u128 = 0;
    let mut i = st;
    while i < en
        invariant
            st <= i <= en <= s@.len(),
            t == s@.subrange(st as int, en as int),
            all_digits(t),
            v == digits_value(t.subrange(0, i - st)),
            v <= small_bound(),
        decreases en - i,
    {
        assert(t[i - st] == s@[i as int]);
        assert(is_digit(t[i - st]));
        let d = s[i] - 48;
        assert(t.subrange(0, i + 1 - st).drop_last() =~= t.subrange(0, i - st));
        let w = v * 10 + d as u128;
        if w > 0x10000000000000000000000000 {
            proof {
                super::decimal::lemma_digits_value_prefix(t, i + 1 - st, t.len() as int);
                assert(t.subrange(0, t.len() as int) =~= t);
            }
            return None;
        }
        v = w;
        i = i + 1;
    }
    assert(t.subrange(0, en - st) =~= t);
    Some(v)
}


/* The value of a double text */

/// What a double text denotes: `nan`, an infinity with its sign, zero, or a
/// non-zero number `± digits × 10^exponent` whose digits neither begin nor
/// end with a zero.
pub enum DoubleKey {
    Nan,
    Inf(bool),
    Zero,
    Num(bool, Seq<u8>, int),
}

/// The index of the first byte at or after `i` that is not `b`, or the
/// length when there is none.
pub open spec fn first_not(s: Seq<u8>, b: u8, i: int) -> int
    decreases s.len() - i,
{
    if i < 0 || i >= s.len() {
        s.len() as int
    } else if s[i] != b {
        i
    } else {
        first_not(s, b, i + 1)
    }
}

/// The index of the last byte before `j` that is not `b`, or -1 when there
/// is none.
pub open spec fn last_not(s: Seq<u8>, b: u8, j: int) -> int
    decreases j,
{
    if j <= 0 || j > s.len() {
        -1
    } else if s[j - 1] != b {
        j - 1
    } else {
        last_not(s, b, j - 1)
    }
}

/// The mantissa of a lower-cased unsigned number text: what precedes `e`.
pub open spec fn mantissa_of(body: Seq<u8>) -> Seq<u8> {
    match find_byte(body, 101u8) {
        Some(k) => body.subrange(0, k),
        None => body,
    }
}

/// The exponent text of a lower-cased unsigned number text: what follows
/// `e`, or nothing.
pub open spec fn exponent_of(body: Seq<u8>) -> Seq<u8> {
    match find_byte(body, 101u8) {
        Some(k) => body.subrange(k + 1, body.len() as int),
        None => Seq::empty(),
    }
}

/// The digits of a mantissa, without its point.
pub open spec fn digits_of(m: Seq<u8>) -> Seq<u8> {
    match find_byte(m, 46u8) {
        Some(d) => m.subrange(0, d) + m.subrange(d + 1, m.len() as int),
        None => m,
    }
}

/// The number of digits after the point of a mantissa.
pub open spec fn frac_len(m: Seq<u8>) -> int {
    match find_byte(m, 46u8) {
        Some(d) => m.len() - d - 1,
        None => 0,
    }
}

/// The length of the sign of an exponent text.
pub open spec fn exp_sign_len(x: Seq<u8>) -> int {
    if x.len() > 0 && (x[0] == 43u8 || x[0] == 45u8) {
        1
    } else {
        0
    }
}

/// The digits of an exponent text.
pub open spec fn exp_digits(x: Seq<u8>) -> Seq<u8> {
    x.subrange(exp_sign_len(x), x.len() as int)
}

/// The value of an exponent text (0 for none).
pub open spec fn exponent_value(x: Seq<u8>) -> int {
    if x.len() > 0 && x[0] == 45u8 {
        -digits_value(exp_digits(x))
    } else {
        digits_value(exp_digits(x)) as int
    }
}

pub open spec fn nan_word() -> Seq<u8> {
    seq![110u8, 97u8, 110u8]
}

pub open spec fn inf_word() -> Seq<u8> {
    seq![105u8, 110u8, 102u8]
}

pub open spec fn infinity_word() -> Seq<u8> {
    seq![105u8, 110u8, 102u8, 105u8, 110u8, 105u8, 116u8, 121u8]
}

/// What the double text `s` denotes.
pub open spec fn double_key(s: Seq<u8>) -> DoubleKey {
    let l = lower_all(s);
    let neg = l.len() > 0 && l[0] == 45u8;
    let body = unsigned_part(l);
    if body == nan_word() {
        DoubleKey::Nan
    } else if body == inf_word() || body == infinity_word() {
        DoubleKey::Inf(neg)
    } else {
        let m = mantissa_of(body);
        let d = digits_of(m);
        let lz = first_not(d, 48u8, 0);
        if lz == d.len() {
            DoubleKey::Zero
        } else {
            let last = last_not(d, 48u8, d.len() as int);
            DoubleKey::Num(
                neg,
                d.subrange(lz, last + 1),
                exponent_value(exponent_of(body)) - frac_len(m) + (d.len() - 1 - last),
            )
        }
    }
}

/// Two double texts denote the same number; texts that are not double
/// texts compare as text.
pub open spec fn same_double(x: Seq<u8>, y: Seq<u8>) -> bool {
    if is_float_text(x) && is_float_text(y) {
        double_key(x) == double_key(y)
    } else {
        x == y
    }
}


/// Whether the exponent texts `x1` and `x2`, shifted by `a1` and `a2`,
/// denote the same number.
fn exponent_eq(x1: &[u8], a1: i128, x2: &[u8], a2: i128) -> (res: bool)
    requires
        all_digits(exp_digits(x1@)),
        all_digits(exp_digits(x2@)),
        -0x10000000000000000 <= a1 <= 0x10000000000000000,
        -0x10000000000000000 <= a2 <= 0x10000000000000000,
    ensures
        res == (exponent_value(x1@) + a1 == exponent_value(x2@) + a2),
{
    let n1 = x1.len();
    let n2 = x2.len();
    let sl1: usize = if n1 > 0 && (x1[0] == 43u8 || x1[0] == 45u8) {
        1
    } else {
        0
    };
    let sl2: usize = if n2 > 0 && (x2[0] == 43u8 || x2[0] == 45u8) {
        1
    } else {
        0
    };
    let neg1 = n1 > 0 && x1[0] == 45u8;
    let neg2 = n2 > 0 && x2[0] == 45u8;
    assert(x1@.subrange(sl1 as int, n1 as int) == exp_digits(x1@));
    assert(x2@.subrange(sl2 as int, n2 as int) == exp_digits(x2@));
    if neg1 == neg2 {
        let d = a1 - a2;
        if !neg1 {
            if d >= 0 {
                sum_eq(x1, sl1, n1, d as u128, x2, sl2, n2, 0)
            } else {
                sum_eq(x1, sl1, n1, 0, x2, sl2, n2, (-d) as u128)
            }
        } else {
            if d >= 0 {
                sum_eq(x2, sl2, n2, d as u128, x1, sl1, n1, 0)
            } else {
                sum_eq(x2, sl2, n2, 0, x1, sl1, n1, (-d) as u128)
            }
        }
    } else {
        match bounded_value(x1, sl1, n1) {
            Some(v1) => match bounded_value(x2, sl2, n2) {
                Some(v2) => {
                    let e1: i128 = if neg1 {
                        -(v1 as i128)
                    } else {
                        v1 as i128
                    };
                    let e2: i128 = if neg2 {
                        -(v2 as i128)
                    } else {
                        v2 as i128
                    };
                    e1 + a1 == e2 + a2
                },
                None => false,
            },
            None => false,
        }
    }
}

/// The bytes of `s`, with ASCII letters in lower case.
fn lower_copy(s: &[u8]) -> (res: Vec<u8>)
    ensures
        res@ == lower_all(s@),
{
    let mut l: Vec<u8> = Vec::new();
    let mut i: usize = 0;
    while i < s.len()
        invariant
            0 <= i <= s@.len(),
            l@ =~= lower_all(s@.subrange(0, i as int)),
        decreases s.len() - i,
    {
        let b = s[i];
        let lb = if 65 <= b && b <= 90 {
            b + 32
        } else {
            b
        };
        l.push(lb);
        i = i + 1;
        assert(lower_all(s@.subrange(0, i as int)) =~= lower_all(s@.subrange(0, i - 1)).push(
            ascii_lower(s@[i - 1]),
        ));
    }
    assert(s@.subrange(0, s@.len() as int) =~= s@);
    l
}

/// A copy of `s[st..en]`.
fn copy_range(s: &[u8], st: usize, en: usize, out: &mut Vec<u8>)
    requires
        st <= en <= s@.len(),
    ensures
        final(out)@ == old(out)@ + s@.subrange(st as int, en as int),
{
    let ghost start = out@;
    let mut i = st;
    while i < en
        invariant
            st <= i <= en <= s@.len(),
            out@ =~= start + s@.subrange(st as int, i as int),
        decreases en - i,
    {
        out.push(s[i]);
        i = i + 1;
        assert(s@.subrange(st as int, i as int) =~= s@.subrange(st as int, i - 1).push(s@[i - 1]));
    }
}

proof fn lemma_first_not(s: Seq<u8>, b: u8, i: int)
    requires
        0 <= i <= s.len(),
    ensures
        i <= first_not(s, b, i) <= s.len(),
        first_not(s, b, i) < s.len() ==> s[first_not(s, b, i)] != b,
        forall|j: int| i <= j < first_not(s, b, i) ==> s[j] == b,
    decreases s.len() - i,
{
    if i < s.len() && s[i] == b {
        lemma_first_not(s, b, i + 1);
    }
}

proof fn lemma_last_not(s: Seq<u8>, b: u8, j: int)
    requires
        0 <= j <= s.len(),
    ensures
        -1 <= last_not(s, b, j) < j,
        last_not(s, b, j) >= 0 ==> s[last_not(s, b, j)] != b,
        forall|k: int| last_not(s, b, j) < k < j ==> s[k] == b,
    decreases j,
{
    if j > 0 && s[j - 1] == b {
        lemma_last_not(s, b, j - 1);
    }
}

/// The parts of a double text that decide its value: its kind (0 `nan`,
/// 1 infinite, 2 zero, 3 another number), its sign, the digits of a number
/// without leading or trailing zeros, its exponent text, and the shift to
/// add to that exponent.
struct DoubleParts {
    kind: u8,
    neg: bool,
    core: Vec<u8>,
    exp: Vec<u8>,
    adj: i128,
}

/// The exponent text of a number text has digits after its sign.
proof fn lemma_exponent_shape(body: Seq<u8>)
    requires
        super::lexical::is_number(body),
    ensures
        all_digits(exp_digits(exponent_of(body))),
{
    let x = exponent_of(body);
    if find_byte(body, 101u8) is None {
        assert(exp_digits(x) =~= Seq::<u8>::empty());
    }
}

/// The positions of the first and the last digit that is not `0`, when
/// there is one.
fn nonzero_span(digits: &Vec<u8>) -> (res: Option<(usize, usize)>)
    ensures
        match res {
            None => first_not(digits@, 48u8, 0) == digits@.len(),
            Some((lz, last)) => {
                &&& first_not(digits@, 48u8, 0) == lz
                &&& lz < digits@.len()
                &&& last_not(digits@, 48u8, digits@.len() as int) == last
                &&& lz <= last < digits@.len()
            },
        },
{
    let dn = digits.len();
    proof {
        lemma_first_not(digits@, 48u8, 0);
        lemma_last_not(digits@, 48u8, dn as int);
    }
    let mut lz: usize = 0;
    while lz < dn && digits[lz] == 48u8
        invariant
            0 <= lz <= dn == digits@.len(),
            lz <= first_not(digits@, 48u8, 0),
            forall|j: int| 0 <= j < first_not(digits@, 48u8, 0) ==> digits@[j] == 48u8,
            first_not(digits@, 48u8, 0) < dn ==> digits@[first_not(digits@, 48u8, 0)] != 48u8,
            first_not(digits@, 48u8, 0) <= dn,
        decreases dn - lz,
    {
        lz = lz + 1;
    }
    if lz == dn {
        return None;
    }
    let mut last: usize = dn - 1;
    while digits[last] == 48u8
        invariant
            lz <= last < dn == digits@.len(),
            digits@[lz as int] != 48u8,
            last >= last_not(digits@, 48u8, dn as int),
            forall|k: int| last_not(digits@, 48u8, dn as int) < k < dn ==> digits@[k] == 48u8,
            last_not(digits@, 48u8, dn as int) >= 0 ==> digits@[last_not(digits@, 48u8, dn as int)]
                != 48u8,
        decreases last,
    {
        last = last - 1;
    }
    Some((lz, last))
}

/// The digits, the number of digits after the point, and the exponent text
/// of the unsigned number text `l[st..n]`.
fn number_parts(l: &[u8], st: usize, n: usize) -> (res: (Vec<u8>, usize, Vec<u8>))
    requires
        st <= n <= l@.len(),
    ensures
        ({
            let body = l@.subrange(st as int, n as int);
            let m = mantissa_of(body);
            &&& res.0@ == digits_of(m)
            &&& res.1 == frac_len(m)
            &&& res.2@ == exponent_of(body)
        }),
{
    let ghost body = l@.subrange(st as int, n as int);
    let (me, xs) = match find_byte_in(l, st, n, 101u8) {
        Some(k) => (k, k + 1),
        None => (n, n),
    };
    let ghost m = mantissa_of(body);
    assert(l@.subrange(st as int, me as int) =~= m);
    let mut exp: Vec<u8> = Vec::new();
    copy_range(l, xs, n, &mut exp);
    assert(exp@ =~= exponent_of(body));
    let mut digits: Vec<u8> = Vec::new();
    let frac: usize = match find_byte_in(l, st, me, 46u8) {
        Some(d) => {
            copy_range(l, st, d, &mut digits);
            copy_range(l, d + 1, me, &mut digits);
            assert(digits@ =~= digits_of(m));
            me - d - 1
        },
        None => {
            copy_range(l, st, me, &mut digits);
            assert(digits@ =~= digits_of(m));
            0
        },
    };
    (digits, frac, exp)
}

/// Splits a double text into its [`DoubleParts`].
fn double_parts(s: &[u8]) -> (res: DoubleParts)
    requires
        is_float_text(s@),
    ensures
        res.kind <= 3,
        res.kind == 0 <==> double_key(s@) is Nan,
        res.kind == 1 <==> double_key(s@) is Inf,
        res.kind == 2 <==> double_key(s@) is Zero,
        res.kind == 1 ==> double_key(s@) == DoubleKey::Inf(res.neg),
        res.kind == 3 ==> {
            &&& double_key(s@) == DoubleKey::Num(
                res.neg,
                res.core@,
                exponent_value(res.exp@) + res.adj,
            )
            &&& all_digits(exp_digits(res.exp@))
            &&& -0x10000000000000000 <= res.adj <= 0x10000000000000000
        },
{
    let l = lower_copy(s);
    let n = l.len();
    let neg = n > 0 && l[0] == 45u8;
    let st: usize = if n > 0 && (l[0] == 43u8 || l[0] == 45u8) {
        1
    } else {
        0
    };
    let ghost body = unsigned_part(l@);
    assert(l@.subrange(st as int, n as int) =~= body);
    let ls = l.as_slice();
    let nan: [u8; 3] = [110u8, 97u8, 110u8];
    let inf: [u8; 3] = [105u8, 110u8, 102u8];
    let infinity: [u8; 8] = [105u8, 110u8, 102u8, 105u8, 110u8, 105u8, 116u8, 121u8];
    assert(nan@ =~= nan_word());
    assert(inf@ =~= inf_word());
    assert(infinity@ =~= infinity_word());
    if same_bytes(ls, st, n, nan.as_slice()) {
        return DoubleParts { kind: 0, neg, core: Vec::new(), exp: Vec::new(), adj: 0 };
    }
    if same_bytes(ls, st, n, inf.as_slice()) || same_bytes(ls, st, n, infinity.as_slice()) {
        return DoubleParts { kind: 1, neg, core: Vec::new(), exp: Vec::new(), adj: 0 };
    }
    let (digits, frac, exp) = number_parts(ls, st, n);
    proof {
        lemma_exponent_shape(body);
    }
    match nonzero_span(&digits) {
        None => DoubleParts { kind: 2, neg, core: Vec::new(), exp: Vec::new(), adj: 0 },
        Some((lz, last)) => {
            let dl = digits.len();
            assert(last < dl);
            let mut core: Vec<u8> = Vec::new();
            copy_range(digits.as_slice(), lz, last + 1, &mut core);
            let adj = (digits.len() - 1 - last) as i128 - frac as i128;
            DoubleParts { kind: 3, neg, core, exp, adj }
        },
    }
}


/// Whether two byte strings are the same.
fn bytes_equal(a: &[u8], b: &[u8]) -> (res: bool)
    ensures
        res == (a@ == b@),
{
    assert(a@.subrange(0, a@.len() as int) =~= a@);
    same_bytes(a, 0, a.len(), b)
}

/// Whether two double texts denote the same number (see [`same_double`]).
pub fn doubles_equal(x: &[u8], y: &[u8]) -> (res: bool)
    ensures
        res == same_double(x@, y@),
{
    assert(x@.subrange(0, x@.len() as int) =~= x@);
    assert(y@.subrange(0, y@.len() as int) =~= y@);
    if float_text_in(x, 0, x.len()) && float_text_in(y, 0, y.len()) {
        let p = double_parts(x);
        let q = double_parts(y);
        if p.kind != q.kind {
            false
        } else if p.kind == 0 || p.kind == 2 {
            true
        } else if p.kind == 1 {
            p.neg == q.neg
        } else {
            p.neg == q.neg && bytes_equal(p.core.as_slice(), q.core.as_slice()) && exponent_eq(
                p.exp.as_slice(),
                p.adj,
                q.exp.as_slice(),
                q.adj,
            )
        }
    } else {
        bytes_equal(x, y)
    }
}

} // verus!
