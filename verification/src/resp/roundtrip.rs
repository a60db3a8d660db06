//! Reading back what was written gives the value that was written.

use vstd::prelude::*;
use vstd::utf8::valid_utf8;
use super::decimal::{digits_value, int_decimal, is_digit, is_numeral, isize_text_value, lemma_int_decimal_roundtrip, lemma_nat_decimal, nat_decimal, signed_value, unsigned_value, usize_text_value};
use super::frame::{Frame, frame_eq, key_index, keys_distinct, map_of, member_index, members_distinct, set_of, lemma_key_index_from, lemma_member_index_from};
use super::lexical::{CR, LF, crlf_at, find_byte, first_crlf, is_canonical_bignum, is_float_text, lemma_find_byte_at, lemma_first_crlf_at};
use super::resp_prefix::{ARRAY, ATTRIBUTE, BIG_NUM, BOOLEAN, BULK_ERROR, BULK_STRING, DOUBLE, INTEGER, MAP, NULL, PUSH, SET, SIMPLE_ERROR, SIMPLE_STRING, VERBATIM_STRING};
use super::types::ParseError;
use super::wire::{body_at, crlf, is_sized_type, is_type_byte, line, parse_aggregate, parse_sized_value, minus_one, parse_frame, parse_list, parse_pairs, serialize, serialize_all, serialize_pairs, sized};

verus! {

/// No line end anywhere in `c`.
pub open spec fn no_crlf(c: Seq<u8>) -> bool {
    forall|i: int| !crlf_at(c, i)
}

/// The values that writing and reading back leaves unchanged: texts that a
/// header line holds have no line end, a double is a float text, a big
/// number is canonical, a verbatim encoding has no `:`, lengths and counts
/// fit the integer types the reader uses, map keys and set members are
/// pairwise unequal, and a push stands only at the top.
pub open spec fn well_formed(f: Frame, nested: bool) -> bool
    decreases f, 0int,
{
    match f {
        Frame::SimpleString(x) => valid_utf8(x) && no_crlf(x),
        Frame::SimpleError(x) => valid_utf8(x) && no_crlf(x),
        Frame::Integer(i) => i64::MIN <= i <= i64::MAX,
        Frame::Null => true,
        Frame::Boolean(_) => true,
        Frame::Double(x) => is_float_text(x) && valid_utf8(x) && no_crlf(x),
        Frame::BigNum(x) => is_canonical_bignum(x) && no_crlf(x),
        Frame::BulkString(x) => valid_utf8(x) && x.len() <= isize::MAX,
        Frame::NullBulkString => true,
        Frame::Array(xs) => xs.len() <= isize::MAX && all_well_formed(xs),
        Frame::NullArray => true,
        Frame::BulkError(x) => valid_utf8(x) && x.len() <= usize::MAX,
        Frame::VerbatimString(e, d) => valid_utf8(e) && valid_utf8(d) && find_byte(e, 58u8) is None
            && e.len() + 1 + d.len() <= usize::MAX,
        Frame::MapValue(ps) => ps.len() <= usize::MAX && keys_distinct(ps) && pairs_well_formed(ps),
        Frame::Attribute(ps, v) => ps.len() <= usize::MAX && keys_distinct(ps) && pairs_well_formed(
            ps,
        ) && well_formed(*v, true),
        Frame::SetValue(xs) => xs.len() <= usize::MAX && members_distinct(xs) && all_well_formed(
            xs,
        ),
        Frame::Push(xs) => !nested && xs.len() <= usize::MAX && all_well_formed(xs),
    }
}

/// Every value of `xs` is well formed inside another value.
pub open spec fn all_well_formed(xs: Seq<Frame>) -> bool
    decreases xs, 0int,
{
    xs.len() == 0 || (well_formed(xs[0], true) && all_well_formed(xs.subrange(1, xs.len() as int)))
}

/// Every key and value of `ps` is well formed inside another value.
pub open spec fn pairs_well_formed(ps: Seq<(Frame, Frame)>) -> bool
    decreases ps, 0int,
{
    ps.len() == 0 || (well_formed(ps[0].0, true) && well_formed(ps[0].1, true) && pairs_well_formed(
        ps.subrange(1, ps.len() as int),
    ))
}

pub(crate) proof fn lemma_no_cr_no_crlf(c: Seq<u8>)
    requires
        forall|i: int| 0 <= i < c.len() ==> c[i] != CR,
    ensures
        no_crlf(c),
{
}

pub(crate) proof fn lemma_decimal_text(n: nat)
    ensures
        unsigned_value(nat_decimal(n)) == Some(n),
        signed_value(nat_decimal(n)) == Some(n as int),
        no_crlf(nat_decimal(n)),
{
    lemma_nat_decimal(n);
    let s = nat_decimal(n);
    assert(is_digit(s[0]));
    assert forall|i: int| 0 <= i < s.len() implies s[i] != CR by {
        assert(is_digit(s[i]));
    }
    lemma_no_cr_no_crlf(s);
}

pub(crate) proof fn lemma_minus_one_text()
    ensures
        signed_value(minus_one()) == Some(-1int),
        no_crlf(minus_one()),
{
    let s = minus_one();
    assert(s.drop_first() =~= seq![49u8]);
    assert(seq![49u8].drop_last() =~= Seq::<u8>::empty());
    assert(digits_value(Seq::<u8>::empty()) == 0);
    assert(seq![49u8].last() == 49u8);
    assert(digits_value(seq![49u8]) == digits_value(Seq::<u8>::empty()) * 10 + 1);
    assert(is_numeral(seq![49u8]));
    lemma_no_cr_no_crlf(s);
}

/// The shape of a header line followed by anything.
pub(crate) proof fn lemma_header(t: u8, c: Seq<u8>, tail: Seq<u8>)
    requires
        t != CR,
        no_crlf(c),
    ensures
        ({
            let s = line(t, c) + tail;
            &&& s.len() == c.len() + 3 + tail.len()
            &&& s[0] == t
            &&& first_crlf(s) == Some(c.len() as int + 1)
            &&& s.subrange(1, c.len() as int + 1) == c
            &&& s.subrange(c.len() as int + 3, s.len() as int) == tail
        }),
{
    let s = line(t, c) + tail;
    let k = c.len() as int + 1;
    assert(s[k] == CR && s[k + 1] == LF);
    assert(crlf_at(s, k));
    assert forall|j: int| 0 <= j < k implies !crlf_at(s, j) by {
        if j == 0 {
            assert(s[0] == t);
        } else if j < k - 1 {
            assert(s[j] == c[j - 1] && s[j + 1] == c[j]);
            assert(!crlf_at(c, j - 1));
        } else {
            assert(s[j + 1] == CR);
        }
    }
    lemma_first_crlf_at(s, k);
    assert(s.subrange(1, k) =~= c);
    assert(s.subrange(k + 2, s.len() as int) =~= tail);
}

/// Writing a map whose keys are pairwise unequal, then inserting its
/// entries in order, gives the same map.
pub proof fn lemma_map_of_distinct(ps: Seq<(Frame, Frame)>)
    requires
        keys_distinct(ps),
    ensures
        map_of(ps) == ps,
    decreases ps.len(),
{
    if ps.len() > 0 {
        let init = ps.drop_last();
        assert(keys_distinct(init));
        lemma_map_of_distinct(init);
        lemma_key_index_from(init, ps.last().0, 0);
        assert forall|i: int| 0 <= i < init.len() implies !frame_eq(ps.last().0, #[trigger] init[i].0) by {
            assert(init[i] == ps[i]);
        }
        assert(key_index(init, ps.last().0) is None);
        assert(init.push(ps.last()) =~= ps);
    }
}

/// The set counterpart of [`lemma_map_of_distinct`].
pub proof fn lemma_set_of_distinct(xs: Seq<Frame>)
    requires
        members_distinct(xs),
    ensures
        set_of(xs) == xs,
    decreases xs.len(),
{
    if xs.len() > 0 {
        let init = xs.drop_last();
        assert(members_distinct(init));
        lemma_set_of_distinct(init);
        lemma_member_index_from(init, xs.last(), 0);
        assert forall|i: int| 0 <= i < init.len() implies !frame_eq(xs.last(), #[trigger] init[i]) by {
            assert(init[i] == xs[i]);
        }
        assert(member_index(init, xs.last()) is None);
        assert(init.push(xs.last()) =~= xs);
    }
}

} // verus!

verus! {

proof fn lemma_line_frame(f: Frame, nested: bool, rest: Seq<u8>)
    requires
        well_formed(f, nested),
        f is SimpleString || f is SimpleError || f is Integer || f is Null || f is Boolean
            || f is Double || f is BigNum || f is NullBulkString || f is NullArray,
    ensures
        parse_frame(serialize(f) + rest, nested) == Ok::<(Frame, int), ParseError>((f, serialize(f).len() as int)),
{
    match f {
        Frame::SimpleString(x) => {
            lemma_header(SIMPLE_STRING, x, rest);
        },
        Frame::SimpleError(x) => {
            lemma_header(SIMPLE_ERROR, x, rest);
        },
        Frame::Integer(i) => {
            lemma_int_decimal_roundtrip(i);
            let c = int_decimal(i);
            assert forall|k: int| 0 <= k < c.len() implies c[k] != CR by {
                let b = c[k];
                assert(b == 45u8 || is_digit(b));
            }
            lemma_no_cr_no_crlf(c);
            lemma_header(INTEGER, c, rest);
        },
        Frame::Null => {
            lemma_no_cr_no_crlf(Seq::<u8>::empty());
            lemma_header(NULL, Seq::empty(), rest);
        },
        Frame::Boolean(b) => {
            let c = if b {
                seq![116u8]
            } else {
                seq![102u8]
            };
            lemma_no_cr_no_crlf(c);
            lemma_header(BOOLEAN, c, rest);
        },
        Frame::Double(x) => {
            lemma_header(DOUBLE, x, rest);
        },
        Frame::BigNum(x) => {
            lemma_header(BIG_NUM, x, rest);
        },
        Frame::NullBulkString => {
            lemma_minus_one_text();
            lemma_header(BULK_STRING, minus_one(), rest);
        },
        Frame::NullArray => {
            lemma_minus_one_text();
            lemma_header(ARRAY, minus_one(), rest);
        },
        _ => {},
    }
}

/// The payload part of a sized value followed by anything.
proof fn lemma_body(t: u8, x: Seq<u8>, rest: Seq<u8>)
    ensures
        ({
            let nd = nat_decimal(x.len());
            let s = sized(t, x) + rest;
            let h = nd.len() as int + 3;
            &&& s == line(t, nd) + (x + crlf() + rest)
            &&& body_at(s, h, x.len() as int) == Ok::<Seq<u8>, ParseError>(x)
            &&& sized(t, x).len() == h + x.len() + 2
        }),
{
    let nd = nat_decimal(x.len());
    let s = sized(t, x) + rest;
    let h = nd.len() as int + 3;
    assert(s =~= line(t, nd) + (x + crlf() + rest));
    let end = h + x.len() as int;
    assert(s[end] == CR);
    assert(s[end + 1] == LF);
    assert(s.subrange(h, end) =~= x);
}

/// The header of a sized value followed by anything.
proof fn lemma_sized_header(t: u8, x: Seq<u8>, rest: Seq<u8>)
    requires
        is_type_byte(t),
        is_sized_type(t),
    ensures
        ({
            let nd = nat_decimal(x.len());
            let s = sized(t, x) + rest;
            let h = nd.len() as int + 3;
            &&& forall|nested: bool|
                #![trigger parse_frame(s, nested)]
                !(t == PUSH && nested) ==> parse_frame(s, nested) == parse_sized_value(s, t, nd, h)
            &&& body_at(s, h, x.len() as int) == Ok::<Seq<u8>, ParseError>(x)
            &&& sized(t, x).len() == h + x.len() + 2
            &&& unsigned_value(nd) == Some(x.len())
            &&& signed_value(nd) == Some(x.len() as int)
        }),
{
    let nd = nat_decimal(x.len());
    lemma_decimal_text(x.len());
    lemma_body(t, x, rest);
    lemma_header(t, nd, x + crlf() + rest);
}

proof fn lemma_bulk_string_frame(x: Seq<u8>, nested: bool, rest: Seq<u8>)
    requires
        valid_utf8(x),
        x.len() <= isize::MAX,
    ensures
        parse_frame(sized(BULK_STRING, x) + rest, nested) == Ok::<(Frame, int), ParseError>(
            (Frame::BulkString(x), sized(BULK_STRING, x).len() as int),
        ),
{
    lemma_sized_header(BULK_STRING, x, rest);
    let nd = nat_decimal(x.len());
    assert(isize_text_value(nd) == Some(x.len() as isize));
}

proof fn lemma_bulk_error_frame(x: Seq<u8>, nested: bool, rest: Seq<u8>)
    requires
        valid_utf8(x),
        x.len() <= usize::MAX,
    ensures
        parse_frame(sized(BULK_ERROR, x) + rest, nested) == Ok::<(Frame, int), ParseError>(
            (Frame::BulkError(x), sized(BULK_ERROR, x).len() as int),
        ),
{
    lemma_sized_header(BULK_ERROR, x, rest);
    let nd = nat_decimal(x.len());
    assert(usize_text_value(nd) == Some(x.len() as usize));
}

proof fn lemma_verbatim_frame(e: Seq<u8>, d: Seq<u8>, nested: bool, rest: Seq<u8>)
    requires
        valid_utf8(e),
        valid_utf8(d),
        find_byte(e, 58u8) is None,
        e.len() + 1 + d.len() <= usize::MAX,
    ensures
        ({
            let b = e + seq![58u8] + d;
            parse_frame(sized(VERBATIM_STRING, b) + rest, nested) == Ok::<(Frame, int), ParseError>(
                (Frame::VerbatimString(e, d), sized(VERBATIM_STRING, b).len() as int),
            )
        }),
{
    let b = e + seq![58u8] + d;
    lemma_sized_header(VERBATIM_STRING, b, rest);
    let nd = nat_decimal(b.len());
    assert(usize_text_value(nd) == Some(b.len() as usize));
    super::lexical::lemma_find_byte_from(e, 58u8, 0);
    assert forall|j: int| 0 <= j < e.len() implies b[j] != 58u8 by {
        assert(b[j] == e[j]);
    }
    lemma_find_byte_at(b, 58u8, e.len() as int);
    assert(b.subrange(0, e.len() as int) =~= e);
    assert(b.subrange(e.len() as int + 1, b.len() as int) =~= d);
}

proof fn lemma_sized_frame(f: Frame, nested: bool, rest: Seq<u8>)
    requires
        well_formed(f, nested),
        f is BulkString || f is BulkError || f is VerbatimString,
    ensures
        parse_frame(serialize(f) + rest, nested) == Ok::<(Frame, int), ParseError>((f, serialize(f).len() as int)),
{
    match f {
        Frame::BulkString(x) => lemma_bulk_string_frame(x, nested, rest),
        Frame::BulkError(x) => lemma_bulk_error_frame(x, nested, rest),
        Frame::VerbatimString(e, d) => lemma_verbatim_frame(e, d, nested, rest),
        _ => {},
    }
}

/// Reading back a well-formed value, written before any bytes at all,
/// gives the value and the length of what was written.
pub proof fn lemma_parse_serialize(f: Frame, nested: bool, rest: Seq<u8>)
    requires
        well_formed(f, nested),
    ensures
        parse_frame(serialize(f) + rest, nested) == Ok::<(Frame, int), ParseError>((f, serialize(f).len() as int)),
    decreases f, 6int,
{
    if f is SimpleString || f is SimpleError || f is Integer || f is Null || f is Boolean
        || f is Double || f is BigNum || f is NullBulkString || f is NullArray {
        lemma_line_frame(f, nested, rest);
    } else if f is BulkString || f is BulkError || f is VerbatimString {
        lemma_sized_frame(f, nested, rest);
    } else if f is Array || f is SetValue || f is Push {
        lemma_list_frame(f, nested, rest);
    } else {
        lemma_map_frame(f, nested, rest);
    }
}

proof fn lemma_list_frame(f: Frame, nested: bool, rest: Seq<u8>)
    requires
        well_formed(f, nested),
        f is Array || f is SetValue || f is Push,
    ensures
        parse_frame(serialize(f) + rest, nested) == Ok::<(Frame, int), ParseError>((f, serialize(f).len() as int)),
    decreases f, 5int,
{
    let (t, xs) = match f {
        Frame::Array(xs) => (ARRAY, xs),
        Frame::SetValue(xs) => (SET, xs),
        Frame::Push(xs) => (PUSH, xs),
        _ => (ARRAY, Seq::empty()),
    };
    let nd = nat_decimal(xs.len());
    let tail = serialize_all(xs) + rest;
    assert(serialize(f) + rest =~= line(t, nd) + tail);
    lemma_decimal_text(xs.len());
    lemma_header(t, nd, tail);
    lemma_parse_serialize_all(xs, rest);
    if f is SetValue {
        lemma_set_of_distinct(xs);
    }
}

proof fn lemma_map_frame(f: Frame, nested: bool, rest: Seq<u8>)
    requires
        well_formed(f, nested),
        f is MapValue || f is Attribute,
    ensures
        parse_frame(serialize(f) + rest, nested) == Ok::<(Frame, int), ParseError>((f, serialize(f).len() as int)),
    decreases f, 5int,
{
    match f {
        Frame::MapValue(ps) => lemma_map_value_frame(ps, nested, rest),
        Frame::Attribute(ps, v) => lemma_attribute_frame(ps, v, nested, rest),
        _ => {},
    }
}

proof fn lemma_map_value_frame(ps: Seq<(Frame, Frame)>, nested: bool, rest: Seq<u8>)
    requires
        ps.len() <= usize::MAX,
        keys_distinct(ps),
        pairs_well_formed(ps),
    ensures
        ({
            let f = Frame::MapValue(ps);
            parse_frame(serialize(f) + rest, nested) == Ok::<(Frame, int), ParseError>((f, serialize(f).len() as int))
        }),
    decreases Frame::MapValue(ps), 4int,
{
    let f = Frame::MapValue(ps);
    lemma_entries_read(MAP, ps, nested, rest);
    let nd = nat_decimal(ps.len());
    let s = serialize(f) + rest;
    assert(serialize(f) == line(MAP, nd) + serialize_pairs(ps));
    assert(s =~= line(MAP, nd) + (serialize_pairs(ps) + rest));
}

#[verifier::rlimit(40)]
proof fn lemma_attribute_frame(ps: Seq<(Frame, Frame)>, v: Box<Frame>, nested: bool, rest: Seq<u8>)
    requires
        ps.len() <= usize::MAX,
        keys_distinct(ps),
        pairs_well_formed(ps),
        well_formed(*v, true),
    ensures
        ({
            let f = Frame::Attribute(ps, v);
            parse_frame(serialize(f) + rest, nested) == Ok::<(Frame, int), ParseError>((f, serialize(f).len() as int))
        }),
    decreases Frame::Attribute(ps, v), 4int,
{
    let f = Frame::Attribute(ps, v);
    let after = serialize(*v) + rest;
    lemma_entries_read(ATTRIBUTE, ps, nested, after);
    let nd = nat_decimal(ps.len());
    let h = nd.len() as int + 3;
    let s = serialize(f) + rest;
    let sp = serialize_pairs(ps);
    assert(serialize(f) == line(ATTRIBUTE, nd) + sp + serialize(*v));
    assert(s =~= line(ATTRIBUTE, nd) + (sp + after));
    let r = s.subrange(h, s.len() as int);
    assert(r.subrange(sp.len() as int, r.len() as int) =~= after);
    lemma_parse_serialize(*v, true, rest);
}

/// The header and the entries of a map-like value, read back.
proof fn lemma_entries_read(t: u8, ps: Seq<(Frame, Frame)>, nested: bool, rest: Seq<u8>)
    requires
        t == MAP || t == ATTRIBUTE,
        ps.len() <= usize::MAX,
        keys_distinct(ps),
        pairs_well_formed(ps),
    ensures
        ({
            let nd = nat_decimal(ps.len());
            let sp = serialize_pairs(ps);
            let s = line(t, nd) + (sp + rest);
            let h = nd.len() as int + 3;
            &&& parse_frame(s, nested) == parse_aggregate(s, t, nd, h)
            &&& usize_text_value(nd) == Some(ps.len() as usize)
            &&& 0 < h <= s.len()
            &&& s.subrange(h, s.len() as int) == sp + rest
            &&& parse_pairs(sp + rest, ps.len() as int) == Ok::<(Seq<(Frame, Frame)>, int), ParseError>((ps, sp.len() as int))
            &&& map_of(ps) == ps
        }),
    decreases ps, 3int,
{
    let nd = nat_decimal(ps.len());
    let sp = serialize_pairs(ps);
    lemma_decimal_text(ps.len());
    lemma_header(t, nd, sp + rest);
    lemma_parse_serialize_pairs(ps, rest);
    lemma_map_of_distinct(ps);
}

/// [`lemma_parse_serialize`] for a run of values.
#[verifier::spinoff_prover]
#[verifier::rlimit(40)]
pub proof fn lemma_parse_serialize_all(xs: Seq<Frame>, rest: Seq<u8>)
    requires
        all_well_formed(xs),
    ensures
        parse_list(serialize_all(xs) + rest, xs.len() as int) == Ok::<(Seq<Frame>, int), ParseError>(
            (xs, serialize_all(xs).len() as int),
        ),
    decreases xs, 1int,
{
    if xs.len() > 0 {
        let tail = xs.subrange(1, xs.len() as int);
        let after = serialize_all(tail) + rest;
        let s = serialize_all(xs) + rest;
        assert(serialize_all(xs) == serialize(xs[0]) + serialize_all(tail));
        assert(s =~= serialize(xs[0]) + after);
        assert(well_formed(xs[0], true));
        lemma_parse_serialize(xs[0], true, after);
        let c = serialize(xs[0]).len() as int;
        assert(parse_frame(s, true) == Ok::<(Frame, int), ParseError>((xs[0], c)));
        assert(s.subrange(c, s.len() as int) =~= after);
        lemma_parse_serialize_all(tail, rest);
        assert(parse_list(after, xs.len() - 1) == Ok::<(Seq<Frame>, int), ParseError>(
            (tail, serialize_all(tail).len() as int),
        ));
        assert(seq![xs[0]] + tail =~= xs);
    } else {
        assert(serialize_all(xs) =~= Seq::<u8>::empty());
        assert(xs =~= Seq::<Frame>::empty());
    }
}

/// [`lemma_parse_serialize`] for a run of entries.
#[verifier::spinoff_prover]
#[verifier::rlimit(40)]
pub proof fn lemma_parse_serialize_pairs(ps: Seq<(Frame, Frame)>, rest: Seq<u8>)
    requires
        pairs_well_formed(ps),
    ensures
        parse_pairs(serialize_pairs(ps) + rest, ps.len() as int) == Ok::<(Seq<(Frame, Frame)>, int), ParseError>(
            (ps, serialize_pairs(ps).len() as int),
        ),
    decreases ps, 1int,
{
    if ps.len() > 0 {
        let tail = ps.subrange(1, ps.len() as int);
        let after_v = serialize_pairs(tail) + rest;
        let after_k = serialize(ps[0].1) + after_v;
        let s = serialize_pairs(ps) + rest;
        assert(serialize_pairs(ps) == serialize(ps[0].0) + serialize(ps[0].1) + serialize_pairs(tail));
        assert(s =~= serialize(ps[0].0) + after_k);
        assert(well_formed(ps[0].0, true) && well_formed(ps[0].1, true) && pairs_well_formed(tail));
        lemma_parse_serialize(ps[0].0, true, after_k);
        let c1 = serialize(ps[0].0).len() as int;
        let s1 = s.subrange(c1, s.len() as int);
        assert(s1 =~= after_k);
        lemma_parse_serialize(ps[0].1, true, after_v);
        let c2 = serialize(ps[0].1).len() as int;
        assert(s1.subrange(c2, s1.len() as int) =~= after_v);
        lemma_parse_serialize_pairs(tail, rest);
        assert(seq![(ps[0].0, ps[0].1)] + tail =~= ps);
        assert(parse_frame(s, true) == Ok::<(Frame, int), ParseError>((ps[0].0, c1)));
        assert(parse_frame(s1, true) == Ok::<(Frame, int), ParseError>((ps[0].1, c2)));
    } else {
        assert(serialize_pairs(ps) =~= Seq::<u8>::empty());
        assert(ps =~= Seq::<(Frame, Frame)>::empty());
    }
}

} // verus!
