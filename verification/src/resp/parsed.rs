//! What reading gives is well formed: every value that the grammar reads
//! can be written and read back unchanged, and equals itself.

use vstd::prelude::*;
use super::decimal::{digits_value, is_digit, lemma_nat_decimal, nat_decimal};
use super::frame::{
    Frame, frame_eq, key_index, keys_distinct, lemma_key_index_from, lemma_member_index_from,
    map_insert, map_of, member_index, members_distinct, set_insert, set_of,
};
use super::lexical::{
    CR, bignum_canonical, bignum_split, bignum_syntax, crlf_at, find_byte, first_crlf,
    is_canonical_bignum, lemma_crlf_from, lemma_find_byte_from, strip_underscores,
};
use super::resp_prefix::{ARRAY, ATTRIBUTE, BIG_NUM, PUSH, SET};
use super::roundtrip::{all_well_formed, no_crlf, pairs_well_formed, well_formed};
use super::types::ParseError;
use super::wire::{
    body_at, is_line_type, is_sized_type, parse_aggregate, parse_frame, parse_line_value,
    parse_list, parse_pairs, parse_sized_value, serialize,
};

verus! {

proof fn lemma_all_well_formed_iff(xs: Seq<Frame>)
    ensures
        all_well_formed(xs) <==> forall|i: int| 0 <= i < xs.len() ==> well_formed(#[trigger] xs[i], true),
    decreases xs.len(),
{
    if xs.len() > 0 {
        let t = xs.subrange(1, xs.len() as int);
        lemma_all_well_formed_iff(t);
        assert forall|i: int| 0 <= i < t.len() implies #[trigger] t[i] == xs[i + 1] by {}
        if forall|i: int| 0 <= i < xs.len() ==> well_formed(#[trigger] xs[i], true) {
            assert forall|i: int| 0 <= i < t.len() implies well_formed(#[trigger] t[i], true) by {
                assert(t[i] == xs[i + 1]);
            }
        }
        if all_well_formed(xs) {
            assert forall|i: int| 0 <= i < xs.len() implies well_formed(#[trigger] xs[i], true) by {
                if i > 0 {
                    assert(xs[i] == t[i - 1]);
                }
            }
        }
    }
}

proof fn lemma_pairs_well_formed_iff(ps: Seq<(Frame, Frame)>)
    ensures
        pairs_well_formed(ps) <==> forall|i: int|
            0 <= i < ps.len() ==> well_formed((#[trigger] ps[i]).0, true) && well_formed(ps[i].1, true),
    decreases ps.len(),
{
    if ps.len() > 0 {
        let t = ps.subrange(1, ps.len() as int);
        lemma_pairs_well_formed_iff(t);
        if forall|i: int|
            0 <= i < ps.len() ==> well_formed((#[trigger] ps[i]).0, true) && well_formed(ps[i].1, true) {
            assert forall|i: int| 0 <= i < t.len() implies well_formed((#[trigger] t[i]).0, true)
                && well_formed(t[i].1, true) by {
                assert(t[i] == ps[i + 1]);
            }
        }
        if pairs_well_formed(ps) {
            assert forall|i: int| 0 <= i < ps.len() implies well_formed((#[trigger] ps[i]).0, true)
                && well_formed(ps[i].1, true) by {
                if i > 0 {
                    assert(ps[i] == t[i - 1]);
                }
            }
        }
    }
}

/// Building a map by insertions keeps its keys distinct, and every key and
/// value of it is one of those inserted.
proof fn lemma_map_of_shape(ps: Seq<(Frame, Frame)>)
    requires
        forall|i: int|
            0 <= i < ps.len() ==> well_formed((#[trigger] ps[i]).0, true) && well_formed(ps[i].1, true),
    ensures
        keys_distinct(map_of(ps)),
        map_of(ps).len() <= ps.len(),
        forall|i: int|
            0 <= i < map_of(ps).len() ==> well_formed((#[trigger] map_of(ps)[i]).0, true)
                && well_formed(map_of(ps)[i].1, true),
    decreases ps.len(),
{
    if ps.len() > 0 {
        let init = ps.drop_last();
        assert forall|i: int| 0 <= i < init.len() implies well_formed((#[trigger] init[i]).0, true)
            && well_formed(init[i].1, true) by {
            assert(init[i] == ps[i]);
        }
        lemma_map_of_shape(init);
        let m = map_of(init);
        let (k, v) = ps.last();
        assert(well_formed(k, true) && well_formed(v, true)) by {
            assert(ps[ps.len() - 1] == ps.last());
        }
        lemma_key_index_from(m, k, 0);
        assert(map_of(ps) == map_insert(m, k, v));
        match key_index(m, k) {
            Some(i) => {
                let r = m.update(i, (m[i].0, v));
                assert forall|a: int, b: int| 0 <= a < b < r.len() implies !frame_eq(
                    #[trigger] r[b].0,
                    #[trigger] r[a].0,
                ) by {
                    assert(r[b].0 == m[b].0 && r[a].0 == m[a].0);
                }
            },
            None => {
                let r = m.push((k, v));
                assert forall|a: int, b: int| 0 <= a < b < r.len() implies !frame_eq(
                    #[trigger] r[b].0,
                    #[trigger] r[a].0,
                ) by {
                    if b == m.len() {
                        assert(r[b].0 == k && r[a] == m[a]);
                    } else {
                        assert(r[b] == m[b] && r[a] == m[a]);
                    }
                }
            },
        }
    }
}

/// The set counterpart of [`lemma_map_of_shape`].
proof fn lemma_set_of_shape(xs: Seq<Frame>)
    requires
        forall|i: int| 0 <= i < xs.len() ==> well_formed(#[trigger] xs[i], true),
    ensures
        members_distinct(set_of(xs)),
        set_of(xs).len() <= xs.len(),
        forall|i: int| 0 <= i < set_of(xs).len() ==> well_formed(#[trigger] set_of(xs)[i], true),
    decreases xs.len(),
{
    if xs.len() > 0 {
        let init = xs.drop_last();
        assert forall|i: int| 0 <= i < init.len() implies well_formed(#[trigger] init[i], true) by {
            assert(init[i] == xs[i]);
        }
        lemma_set_of_shape(init);
        let s = set_of(init);
        let x = xs.last();
        assert(well_formed(x, true)) by {
            assert(xs[xs.len() - 1] == xs.last());
        }
        lemma_member_index_from(s, x, 0);
        assert(set_of(xs) == set_insert(s, x));
        if member_index(s, x) is None {
            let r = s.push(x);
            assert forall|a: int, b: int| 0 <= a < b < r.len() implies !frame_eq(
                #[trigger] r[b],
                #[trigger] r[a],
            ) by {
                if b == s.len() {
                    assert(r[b] == x && r[a] == s[a]);
                } else {
                    assert(r[b] == s[b] && r[a] == s[a]);
                }
            }
        }
    }
}

/// Removing underscores from a run of digits changes nothing.
proof fn lemma_strip_digits(u: Seq<u8>)
    requires
        forall|i: int| 0 <= i < u.len() ==> #[trigger] is_digit(u[i]),
    ensures
        strip_underscores(u) == u,
    decreases u.len(),
{
    if u.len() > 0 {
        let init = u.drop_last();
        assert forall|i: int| 0 <= i < init.len() implies #[trigger] is_digit(init[i]) by {
            assert(init[i] == u[i]);
        }
        lemma_strip_digits(init);
        assert(is_digit(u[u.len() - 1]));
        assert(init.push(u.last()) =~= u);
        reveal(Seq::filter);
        assert(u.filter(|b: u8| b != 95u8) == init.filter(|b: u8| b != 95u8).push(u.last()));
    }
}

/// A canonical big-number text is its own canonical form, and has no line
/// end.
proof fn lemma_canonical_bignum(c: Seq<u8>)
    requires
        bignum_canonical(c) is Some,
    ensures
        is_canonical_bignum(bignum_canonical(c)->Some_0),
        no_crlf(bignum_canonical(c)->Some_0),
{
    let (neg, u) = bignum_split(c);
    let v = digits_value(strip_underscores(u));
    let nd = nat_decimal(v);
    lemma_nat_decimal(v);
    lemma_strip_digits(nd);
    let d = bignum_canonical(c)->Some_0;
    assert(is_digit(nd[0]));
    if neg && v > 0 {
        assert(d == seq![45u8] + nd);
        assert(d[1] == nd[0]);
        assert(bignum_split(d).1 =~= nd);
        assert(bignum_syntax(d));
        assert(bignum_canonical(d) == Some(d));
        assert forall|i: int| 0 <= i < d.len() implies d[i] != CR by {
            if i > 0 {
                assert(d[i] == nd[i - 1]);
                assert(is_digit(nd[i - 1]));
            }
        }
    } else {
        assert(d == nd);
        assert(bignum_split(d).1 == nd);
        assert(bignum_syntax(d));
        assert(bignum_canonical(d) == Some(d));
        assert forall|i: int| 0 <= i < d.len() implies d[i] != CR by {
            assert(is_digit(nd[i]));
        }
    }
}

/// The header content before the first line end has no line end.
proof fn lemma_header_content(s: Seq<u8>, e: int)
    requires
        first_crlf(s) == Some(e),
    ensures
        1 <= e + 1,
        e + 2 <= s.len(),
        s.len() > 0 ==> (e >= 1 ==> no_crlf(s.subrange(1, e))),
{
    lemma_crlf_from(s, 0);
    if s.len() > 0 && e >= 1 {
        let c = s.subrange(1, e);
        assert forall|i: int| !crlf_at(c, i) by {
            if crlf_at(c, i) {
                assert(s[i + 1] == c[i] && s[i + 2] == c[i + 1]);
                assert(crlf_at(s, i + 1));
            }
        }
    }
}

/// Every value that the grammar reads at the front of `s` is well formed,
/// and takes some of the bytes of `s`.
pub proof fn law_parsed_well_formed(s: Seq<u8>, nested: bool)
    ensures
        parse_frame(s, nested) matches Ok((f, n)) ==> well_formed(f, nested) && 0 < n <= s.len(),
    decreases s.len(), 1int,
{
    if s.len() > 0 && parse_frame(s, nested) is Ok {
        let e = first_crlf(s)->Some_0;
        lemma_crlf_from(s, 0);
        let t = s[0];
        let c = s.subrange(1, e);
        let h = e + 2;
        assert(crlf_at(s, e));
        if e >= 1 {
            lemma_header_content(s, e);
        }
        if is_line_type(t) {
            assert(parse_frame(s, nested) == parse_line_value(t, c, h));
            if t == BIG_NUM {
                lemma_canonical_bignum(c);
            }
        } else if is_sized_type(t) {
            assert(parse_frame(s, nested) == parse_sized_value(s, t, c, h));
            lemma_sized_well_formed(s, t, c, h, nested);
        } else {
            assert(parse_frame(s, nested) == parse_aggregate(s, t, c, h));
            lemma_aggregate_well_formed(s, t, c, h, nested);
        }
    }
}

proof fn lemma_sized_well_formed(s: Seq<u8>, t: u8, c: Seq<u8>, h: int, nested: bool)
    requires
        is_sized_type(t),
        0 < h <= s.len(),
    ensures
        parse_sized_value(s, t, c, h) matches Ok((f, n)) ==> well_formed(f, nested) && 0 < n
            <= s.len(),
{
    if let Ok((f, n)) = parse_sized_value(s, t, c, h) {
        if let Frame::VerbatimString(enc, data) = f {
            let len = super::decimal::usize_text_value(c)->Some_0;
            let b = body_at(s, h, len as int)->Ok_0;
            let k = find_byte(b, 58u8)->Some_0;
            lemma_find_byte_from(b, 58u8, 0);
            lemma_find_byte_from(enc, 58u8, 0);
            assert forall|j: int| 0 <= j < enc.len() implies enc[j] != 58u8 by {
                assert(enc[j] == b[j]);
            }
        }
    }
}

proof fn lemma_aggregate_well_formed(s: Seq<u8>, t: u8, c: Seq<u8>, h: int, nested: bool)
    requires
        !is_line_type(t),
        !is_sized_type(t),
        super::wire::is_type_byte(t),
        !(t == PUSH && nested),
        0 < h <= s.len(),
    ensures
        parse_aggregate(s, t, c, h) matches Ok((f, n)) ==> well_formed(f, nested) && 0 < n
            <= s.len(),
    decreases s.len(), 0int,
{
    let rest = s.subrange(h, s.len() as int);
    if let Ok((f, n)) = parse_aggregate(s, t, c, h) {
        if t == ARRAY || t == SET || t == PUSH {
            let k = if t == ARRAY {
                super::decimal::isize_text_value(c)->Some_0 as int
            } else {
                super::decimal::usize_text_value(c)->Some_0 as int
            };
            if !(t == ARRAY && k == -1) {
                lemma_list_well_formed(rest, k);
                let xs = parse_list(rest, k)->Ok_0.0;
                lemma_all_well_formed_iff(xs);
                if t == SET {
                    lemma_set_of_shape(xs);
                    lemma_all_well_formed_iff(set_of(xs));
                }
            }
        } else {
            let k = super::decimal::usize_text_value(c)->Some_0 as int;
            lemma_pairs_well_formed(rest, k);
            let (ps, u) = parse_pairs(rest, k)->Ok_0;
            lemma_map_of_shape(ps);
            lemma_pairs_well_formed_iff(map_of(ps));
            if t == ATTRIBUTE {
                law_parsed_well_formed(rest.subrange(u, rest.len() as int), true);
            }
        }
    }
}

/// The values that the grammar reads in a row are well formed, as many as
/// asked for.
proof fn lemma_list_well_formed(s: Seq<u8>, n: int)
    ensures
        parse_list(s, n) matches Ok((xs, c)) ==> {
            &&& xs.len() == if n > 0 { n } else { 0 }
            &&& 0 <= c <= s.len()
            &&& forall|i: int| 0 <= i < xs.len() ==> well_formed(#[trigger] xs[i], true)
        },
    decreases s.len(), n + 2,
{
    if n > 0 && parse_list(s, n) is Ok {
        law_parsed_well_formed(s, true);
        let (f, c) = parse_frame(s, true)->Ok_0;
        let rest = s.subrange(c, s.len() as int);
        lemma_list_well_formed(rest, n - 1);
        let (fs, c2) = parse_list(rest, n - 1)->Ok_0;
        let xs = seq![f] + fs;
        assert forall|i: int| 0 <= i < xs.len() implies well_formed(#[trigger] xs[i], true) by {
            if i > 0 {
                assert(xs[i] == fs[i - 1]);
            }
        }
    }
}

/// The entries that the grammar reads in a row are well formed, as many as
/// asked for.
proof fn lemma_pairs_well_formed(s: Seq<u8>, n: int)
    ensures
        parse_pairs(s, n) matches Ok((ps, c)) ==> {
            &&& ps.len() == if n > 0 { n } else { 0 }
            &&& 0 <= c <= s.len()
            &&& forall|i: int|
                0 <= i < ps.len() ==> well_formed((#[trigger] ps[i]).0, true) && well_formed(
                    ps[i].1,
                    true,
                )
        },
    decreases s.len(), n + 2,
{
    if n > 0 && parse_pairs(s, n) is Ok {
        law_parsed_well_formed(s, true);
        let (k, c1) = parse_frame(s, true)->Ok_0;
        let s1 = s.subrange(c1, s.len() as int);
        law_parsed_well_formed(s1, true);
        let (v, c2) = parse_frame(s1, true)->Ok_0;
        let s2 = s1.subrange(c2, s1.len() as int);
        lemma_pairs_well_formed(s2, n - 1);
        let (rest, c3) = parse_pairs(s2, n - 1)->Ok_0;
        let ps = seq![(k, v)] + rest;
        assert forall|i: int| 0 <= i < ps.len() implies well_formed((#[trigger] ps[i]).0, true)
            && well_formed(ps[i].1, true) by {
            if i > 0 {
                assert(ps[i] == rest[i - 1]);
            }
        }
    }
}


/// Writing a value that was read and reading it again gives the same value,
/// which equals itself: what the encoder writes of a decoded value is read
/// back unchanged, whatever follows it.
pub proof fn law_reencode(s: Seq<u8>, nested: bool, rest: Seq<u8>)
    requires
        parse_frame(s, nested) is Ok,
    ensures
        ({
            let f = parse_frame(s, nested)->Ok_0.0;
            &&& parse_frame(serialize(f) + rest, nested) == Ok::<(Frame, int), ParseError>(
                (f, serialize(f).len() as int),
            )
            &&& frame_eq(f, f)
        }),
{
    let f = parse_frame(s, nested)->Ok_0.0;
    law_parsed_well_formed(s, nested);
    super::roundtrip::lemma_parse_serialize(f, nested, rest);
    super::laws::law_frame_eq_reflexive(f, nested);
}

} // verus!
