//! Properties of the equality of RESP values.

use vstd::prelude::*;
use super::frame::{
    Frame, entries_within, frame_eq, frames_eq, key_index_from, keys_distinct,
    lemma_key_index_from, member_index_from, members_distinct, members_within,
    lemma_member_index_from,
};
use vstd::set_lib::{lemma_int_range, lemma_map_size, lemma_subset_equality, set_int_range};
use super::roundtrip::{all_well_formed, pairs_well_formed, well_formed};

verus! {

proof fn lemma_all_well_formed_at(xs: Seq<Frame>, i: int)
    requires
        all_well_formed(xs),
        0 <= i < xs.len(),
    ensures
        well_formed(xs[i], true),
    decreases i,
{
    if i > 0 {
        lemma_all_well_formed_at(xs.subrange(1, xs.len() as int), i - 1);
    }
}

proof fn lemma_pairs_well_formed_at(ps: Seq<(Frame, Frame)>, i: int)
    requires
        pairs_well_formed(ps),
        0 <= i < ps.len(),
    ensures
        well_formed(ps[i].0, true),
        well_formed(ps[i].1, true),
    decreases i,
{
    if i > 0 {
        lemma_pairs_well_formed_at(ps.subrange(1, ps.len() as int), i - 1);
    }
}

proof fn lemma_frames_eq_refl(xs: Seq<Frame>)
    requires
        forall|i: int| 0 <= i < xs.len() ==> frame_eq(#[trigger] xs[i], xs[i]),
    ensures
        frames_eq(xs, xs),
    decreases xs.len(),
{
    if xs.len() > 0 {
        let t = xs.subrange(1, xs.len() as int);
        assert forall|i: int| 0 <= i < t.len() implies frame_eq(#[trigger] t[i], t[i]) by {
            assert(t[i] == xs[i + 1]);
        }
        lemma_frames_eq_refl(t);
        assert(frame_eq(xs[0], xs[0]));
    }
}

proof fn lemma_entries_refl(m: Seq<(Frame, Frame)>, o: int)
    requires
        keys_distinct(m),
        forall|i: int|
            0 <= i < m.len() ==> frame_eq((#[trigger] m[i]).0, m[i].0) && frame_eq(m[i].1, m[i].1),
        0 <= o <= m.len(),
    ensures
        entries_within(m.subrange(o, m.len() as int), m),
    decreases m.len() - o,
{
    let s = m.subrange(o, m.len() as int);
    if o < m.len() {
        lemma_entries_refl(m, o + 1);
        assert(s.subrange(1, s.len() as int) =~= m.subrange(o + 1, m.len() as int));
        assert(s[0] == m[o]);
        lemma_key_index_from(m, m[o].0, 0);
        assert(frame_eq(m[o].0, m[o].0));
        if let Some(j) = super::frame::key_index_from(m, m[o].0, 0) {
            if j < o {
                assert(!frame_eq(m[o].0, m[j].0));
            }
            assert(j <= o);
            assert(j == o);
        }
    }
}

proof fn lemma_members_refl(s: Seq<Frame>, o: int)
    requires
        forall|i: int| 0 <= i < s.len() ==> frame_eq(#[trigger] s[i], s[i]),
        0 <= o <= s.len(),
    ensures
        members_within(s.subrange(o, s.len() as int), s),
    decreases s.len() - o,
{
    let t = s.subrange(o, s.len() as int);
    if o < s.len() {
        lemma_members_refl(s, o + 1);
        assert(t.subrange(1, t.len() as int) =~= s.subrange(o + 1, s.len() as int));
        assert(t[0] == s[o]);
        lemma_member_index_from(s, s[o], 0);
        assert(frame_eq(s[o], s[o]));
    }
}

/// A well-formed value equals itself: equality of RESP values is reflexive
/// on the values that the decoder gives.
pub proof fn law_frame_eq_reflexive(f: Frame, nested: bool)
    requires
        well_formed(f, nested),
    ensures
        frame_eq(f, f),
    decreases f,
{
    match f {
        Frame::Array(xs) => {
            assert forall|i: int| 0 <= i < xs.len() implies frame_eq(#[trigger] xs[i], xs[i]) by {
                lemma_all_well_formed_at(xs, i);
                law_frame_eq_reflexive(xs[i], true);
            }
            lemma_frames_eq_refl(xs);
        },
        Frame::Push(xs) => {
            assert forall|i: int| 0 <= i < xs.len() implies frame_eq(#[trigger] xs[i], xs[i]) by {
                lemma_all_well_formed_at(xs, i);
                law_frame_eq_reflexive(xs[i], true);
            }
            lemma_frames_eq_refl(xs);
        },
        Frame::SetValue(xs) => {
            assert forall|i: int| 0 <= i < xs.len() implies frame_eq(#[trigger] xs[i], xs[i]) by {
                lemma_all_well_formed_at(xs, i);
                law_frame_eq_reflexive(xs[i], true);
            }
            lemma_members_refl(xs, 0);
            assert(xs.subrange(0, xs.len() as int) =~= xs);
        },
        Frame::MapValue(ps) => {
            assert forall|i: int| 0 <= i < ps.len() implies frame_eq((#[trigger] ps[i]).0, ps[i].0)
                && frame_eq(ps[i].1, ps[i].1) by {
                lemma_pairs_well_formed_at(ps, i);
                law_frame_eq_reflexive(ps[i].0, true);
                law_frame_eq_reflexive(ps[i].1, true);
            }
            lemma_entries_refl(ps, 0);
            assert(ps.subrange(0, ps.len() as int) =~= ps);
        },
        Frame::Attribute(ps, v) => {
            assert forall|i: int| 0 <= i < ps.len() implies frame_eq((#[trigger] ps[i]).0, ps[i].0)
                && frame_eq(ps[i].1, ps[i].1) by {
                lemma_pairs_well_formed_at(ps, i);
                law_frame_eq_reflexive(ps[i].0, true);
                law_frame_eq_reflexive(ps[i].1, true);
            }
            lemma_entries_refl(ps, 0);
            assert(ps.subrange(0, ps.len() as int) =~= ps);
            law_frame_eq_reflexive(*v, true);
        },
        Frame::Double(x) => {
            super::double::law_same_double_equivalence(x, x, x);
        },
        _ => {},
    }
}

/* Symmetry and transitivity */

/// The height of a value: 0 for a value without parts, one more than its
/// highest part otherwise.
pub open spec fn depth(f: Frame) -> nat
    decreases f, 1int,
{
    match f {
        Frame::Array(xs) => 1 + depth_all(xs),
        Frame::Push(xs) => 1 + depth_all(xs),
        Frame::SetValue(xs) => 1 + depth_all(xs),
        Frame::MapValue(ps) => 1 + depth_pairs(ps),
        Frame::Attribute(ps, v) => 1 + max_nat(depth_pairs(ps), depth(*v)),
        _ => 0,
    }
}

pub open spec fn max_nat(a: nat, b: nat) -> nat {
    if a < b {
        b
    } else {
        a
    }
}

/// The height of the highest of `xs`.
pub open spec fn depth_all(xs: Seq<Frame>) -> nat
    decreases xs, 0int,
{
    if xs.len() == 0 {
        0
    } else {
        max_nat(depth(xs[0]), depth_all(xs.subrange(1, xs.len() as int)))
    }
}

/// The height of the highest key or value of `ps`.
pub open spec fn depth_pairs(ps: Seq<(Frame, Frame)>) -> nat
    decreases ps, 0int,
{
    if ps.len() == 0 {
        0
    } else {
        max_nat(
            max_nat(depth(ps[0].0), depth(ps[0].1)),
            depth_pairs(ps.subrange(1, ps.len() as int)),
        )
    }
}

proof fn lemma_depth_all(xs: Seq<Frame>, i: int)
    requires
        0 <= i < xs.len(),
    ensures
        depth(xs[i]) <= depth_all(xs),
    decreases i,
{
    if i > 0 {
        let t = xs.subrange(1, xs.len() as int);
        lemma_depth_all(t, i - 1);
        assert(t[i - 1] == xs[i]);
    }
}

proof fn lemma_depth_pairs(ps: Seq<(Frame, Frame)>, i: int)
    requires
        0 <= i < ps.len(),
    ensures
        depth(ps[i].0) <= depth_pairs(ps),
        depth(ps[i].1) <= depth_pairs(ps),
    decreases i,
{
    if i > 0 {
        let t = ps.subrange(1, ps.len() as int);
        lemma_depth_pairs(t, i - 1);
        assert(t[i - 1] == ps[i]);
    }
}

proof fn lemma_frames_eq_iff(xs: Seq<Frame>, ys: Seq<Frame>)
    ensures
        frames_eq(xs, ys) <==> xs.len() == ys.len() && forall|i: int|
            0 <= i < xs.len() ==> frame_eq(#[trigger] xs[i], ys[i]),
    decreases xs.len(),
{
    if xs.len() == ys.len() && xs.len() > 0 {
        let tx = xs.subrange(1, xs.len() as int);
        let ty = ys.subrange(1, ys.len() as int);
        lemma_frames_eq_iff(tx, ty);
        if forall|i: int| 0 <= i < xs.len() ==> frame_eq(#[trigger] xs[i], ys[i]) {
            assert forall|i: int| 0 <= i < tx.len() implies frame_eq(#[trigger] tx[i], ty[i]) by {
                assert(tx[i] == xs[i + 1] && ty[i] == ys[i + 1]);
            }
        }
        if frames_eq(xs, ys) {
            assert forall|i: int| 0 <= i < xs.len() implies frame_eq(#[trigger] xs[i], ys[i]) by {
                if i > 0 {
                    assert(tx[i - 1] == xs[i] && ty[i - 1] == ys[i]);
                }
            }
        }
    }
}

/// Where each entry of `m1` finds its key in `m2`.
pub open spec fn entry_found(m1: Seq<(Frame, Frame)>, m2: Seq<(Frame, Frame)>, i: int) -> bool {
    key_index_from(m2, m1[i].0, 0) matches Some(j) && frame_eq(m1[i].1, m2[j].1)
}

proof fn lemma_entries_within_iff(m1: Seq<(Frame, Frame)>, m2: Seq<(Frame, Frame)>)
    ensures
        entries_within(m1, m2) <==> forall|i: int| 0 <= i < m1.len() ==> #[trigger] entry_found(m1, m2, i),
    decreases m1.len(),
{
    if m1.len() > 0 {
        let t = m1.subrange(1, m1.len() as int);
        lemma_entries_within_iff(t, m2);
        assert forall|i: int| 0 <= i < t.len() implies #[trigger] entry_found(t, m2, i) == entry_found(
            m1,
            m2,
            i + 1,
        ) by {
            assert(t[i] == m1[i + 1]);
        }
        if forall|i: int| 0 <= i < m1.len() ==> #[trigger] entry_found(m1, m2, i) {
            assert(entry_found(m1, m2, 0));
            assert forall|i: int| 0 <= i < t.len() implies #[trigger] entry_found(t, m2, i) by {
                assert(entry_found(m1, m2, i + 1));
            }
        }
        if entries_within(m1, m2) {
            assert forall|i: int| 0 <= i < m1.len() implies #[trigger] entry_found(m1, m2, i) by {
                if i > 0 {
                    assert(entry_found(t, m2, i - 1));
                }
            }
        }
    }
}

proof fn lemma_members_within_iff(s1: Seq<Frame>, s2: Seq<Frame>)
    ensures
        members_within(s1, s2) <==> forall|i: int|
            0 <= i < s1.len() ==> #[trigger] member_index_from(s2, s1[i], 0) is Some,
    decreases s1.len(),
{
    if s1.len() > 0 {
        let t = s1.subrange(1, s1.len() as int);
        lemma_members_within_iff(t, s2);
        if forall|i: int| 0 <= i < s1.len() ==> #[trigger] member_index_from(s2, s1[i], 0) is Some {
            assert(member_index_from(s2, s1[0], 0) is Some);
            assert forall|i: int| 0 <= i < t.len() implies #[trigger] member_index_from(s2, t[i], 0) is Some by {
                assert(t[i] == s1[i + 1]);
                assert(member_index_from(s2, s1[i + 1], 0) is Some);
            }
        }
        if members_within(s1, s2) {
            assert forall|i: int| 0 <= i < s1.len() implies #[trigger] member_index_from(s2, s1[i], 0) is Some by {
                if i > 0 {
                    assert(t[i - 1] == s1[i]);
                    assert(member_index_from(s2, t[i - 1], 0) is Some);
                }
            }
        }
    }
}

/// Some element of `0..n` is mapped to `j`.
pub open spec fn hit(f: spec_fn(int) -> int, n: int, j: int) -> bool {
    exists|i: int| 0 <= i < n && #[trigger] f(i) == j
}

/// An injective map of `0..n` into itself reaches every element.
proof fn lemma_onto(n: int, f: spec_fn(int) -> int)
    requires
        n >= 0,
        forall|i: int| 0 <= i < n ==> 0 <= #[trigger] f(i) < n,
        forall|i: int, k: int| 0 <= i < n && 0 <= k < n && #[trigger] f(i) == #[trigger] f(k) ==> i == k,
    ensures
        forall|j: int| 0 <= j < n ==> #[trigger] hit(f, n, j),
{
    let a = set_int_range(0, n);
    lemma_int_range(0, n);
    let b = a.map(f);
    assert(vstd::relations::injective_on(f, a));
    lemma_map_size(a, b, f);
    assert(b.subset_of(a));
    lemma_subset_equality(b, a);
    assert forall|j: int| 0 <= j < n implies #[trigger] hit(f, n, j) by {
        assert(a.contains(j));
        assert(b.contains(j));
    }
}

/// The greatest of three heights.
pub open spec fn max3(a: nat, b: nat, c: nat) -> nat {
    max_nat(max_nat(a, b), c)
}

/// Equality of well-formed RESP values is symmetric and transitive.
pub proof fn law_frame_eq_equivalence(a: Frame, b: Frame, c: Frame, na: bool, nb: bool, nc: bool)
    requires
        well_formed(a, na),
        well_formed(b, nb),
        well_formed(c, nc),
    ensures
        frame_eq(a, b) ==> frame_eq(b, a),
        frame_eq(a, b) && frame_eq(b, c) ==> frame_eq(a, c),
    decreases max3(depth(a), depth(b), depth(c)), 1int,
{
    match (a, b) {
        (Frame::Double(x), Frame::Double(y)) => {
            if let Frame::Double(z) = c {
                super::double::law_same_double_equivalence(x, y, z);
            } else {
                super::double::law_same_double_equivalence(x, y, y);
            }
        },
        (Frame::Array(xs), Frame::Array(ys)) => {
            let zs = match c {
                Frame::Array(zs) => zs,
                _ => ys,
            };
            lemma_list_equivalence(a, b, c, xs, ys, zs, na, nb, nc);
        },
        (Frame::Push(xs), Frame::Push(ys)) => {
            let zs = match c {
                Frame::Push(zs) => zs,
                _ => ys,
            };
            lemma_list_equivalence(a, b, c, xs, ys, zs, na, nb, nc);
        },
        (Frame::SetValue(xs), Frame::SetValue(ys)) => {
            let zs = match c {
                Frame::SetValue(zs) => zs,
                _ => ys,
            };
            lemma_set_equivalence(a, b, c, xs, ys, zs, na, nb, nc);
        },
        (Frame::MapValue(ps), Frame::MapValue(qs)) => {
            let rs = match c {
                Frame::MapValue(rs) => rs,
                _ => qs,
            };
            lemma_map_equivalence(a, b, c, ps, qs, rs, na, nb, nc);
        },
        (Frame::Attribute(ps, v), Frame::Attribute(qs, w)) => {
            let (rs, u) = match c {
                Frame::Attribute(rs, u) => (rs, u),
                _ => (qs, w),
            };
            lemma_map_equivalence(a, b, c, ps, qs, rs, na, nb, nc);
            law_frame_eq_equivalence(*v, *w, *u, true, true, true);
        },
        _ => {},
    }
}

proof fn lemma_list_equivalence(
    a: Frame,
    b: Frame,
    c: Frame,
    xs: Seq<Frame>,
    ys: Seq<Frame>,
    zs: Seq<Frame>,
    na: bool,
    nb: bool,
    nc: bool,
)
    requires
        well_formed(a, na),
        well_formed(b, nb),
        well_formed(c, nc),
        a is Array && b is Array && xs == a->Array_0 && ys == b->Array_0 && (c is Array ==> zs
            == c->Array_0) && (!(c is Array) ==> zs == ys) || a is Push && b is Push && xs
            == a->Push_0 && ys == b->Push_0 && (c is Push ==> zs == c->Push_0) && (!(c is Push)
            ==> zs == ys),
    ensures
        frame_eq(a, b) ==> frame_eq(b, a),
        frame_eq(a, b) && frame_eq(b, c) ==> frame_eq(a, c),
    decreases max3(depth(a), depth(b), depth(c)), 0int,
{
    lemma_frames_eq_iff(xs, ys);
    lemma_frames_eq_iff(ys, xs);
    lemma_frames_eq_iff(ys, zs);
    lemma_frames_eq_iff(xs, zs);
    if frame_eq(a, b) {
        assert(xs.len() == ys.len());
        assert forall|i: int| 0 <= i < xs.len() implies frame_eq(#[trigger] ys[i], xs[i])
            && (frame_eq(b, c) ==> frame_eq(xs[i], zs[i])) by {
            lemma_all_well_formed_at(xs, i);
            lemma_all_well_formed_at(ys, i);
            lemma_depth_all(xs, i);
            lemma_depth_all(ys, i);
            if frame_eq(b, c) {
                assert(zs.len() == ys.len());
                lemma_all_well_formed_at(zs, i);
                lemma_depth_all(zs, i);
                law_frame_eq_equivalence(xs[i], ys[i], zs[i], true, true, true);
            } else {
                law_frame_eq_equivalence(xs[i], ys[i], ys[i], true, true, true);
            }
        }
    }
}

proof fn lemma_set_equivalence(
    a: Frame,
    b: Frame,
    c: Frame,
    xs: Seq<Frame>,
    ys: Seq<Frame>,
    zs: Seq<Frame>,
    na: bool,
    nb: bool,
    nc: bool,
)
    requires
        well_formed(a, na),
        well_formed(b, nb),
        well_formed(c, nc),
        a == Frame::SetValue(xs),
        b == Frame::SetValue(ys),
        c is SetValue ==> c == Frame::SetValue(zs),
        !(c is SetValue) ==> zs == ys,
    ensures
        frame_eq(a, b) ==> frame_eq(b, a),
        frame_eq(a, b) && frame_eq(b, c) ==> frame_eq(a, c),
    decreases max3(depth(a), depth(b), depth(c)), 0int,
{
    lemma_members_within_iff(xs, ys);
    lemma_members_within_iff(ys, xs);
    lemma_members_within_iff(ys, zs);
    lemma_members_within_iff(xs, zs);
    if frame_eq(a, b) {
        let n = xs.len() as int;
        // where each member of `xs` is found in `ys`
        let f = |i: int| if 0 <= i < n {
            member_index_from(ys, xs[i], 0)->Some_0
        } else {
            0
        };
        assert forall|i: int| 0 <= i < n implies 0 <= #[trigger] f(i) < n && frame_eq(xs[i], ys[f(i)]) by {
            assert(member_index_from(ys, xs[i], 0) is Some);
            lemma_member_index_from(ys, xs[i], 0);
        }
        assert forall|i: int, k: int| 0 <= i < n && 0 <= k < n && #[trigger] f(i) == #[trigger] f(k) implies i == k by {
            let j = f(i);
            lemma_all_well_formed_at(xs, i);
            lemma_all_well_formed_at(xs, k);
            lemma_all_well_formed_at(ys, j);
            lemma_depth_all(xs, i);
            lemma_depth_all(xs, k);
            lemma_depth_all(ys, j);
            law_frame_eq_equivalence(xs[k], ys[j], xs[i], true, true, true);
            law_frame_eq_equivalence(xs[i], ys[j], xs[k], true, true, true);
            law_frame_eq_equivalence(xs[i], xs[k], xs[k], true, true, true);
            if i < k {
                assert(!frame_eq(xs[k], xs[i]));
            } else if k < i {
                assert(!frame_eq(xs[i], xs[k]));
            }
        }
        lemma_onto(n, f);
        assert forall|j: int| 0 <= j < ys.len() implies #[trigger] member_index_from(xs, ys[j], 0) is Some by {
            assert(hit(f, n, j));
            let i = choose|i: int| 0 <= i < n && #[trigger] f(i) == j;
            lemma_all_well_formed_at(xs, i);
            lemma_all_well_formed_at(ys, j);
            lemma_depth_all(xs, i);
            lemma_depth_all(ys, j);
            law_frame_eq_equivalence(xs[i], ys[j], ys[j], true, true, true);
            lemma_member_index_from(xs, ys[j], 0);
        }
        if frame_eq(b, c) {
            assert forall|i: int| 0 <= i < n implies #[trigger] member_index_from(zs, xs[i], 0) is Some by {
                let j = f(i);
                assert(member_index_from(zs, ys[j], 0) is Some);
                lemma_member_index_from(zs, ys[j], 0);
                let l = member_index_from(zs, ys[j], 0)->Some_0;
                lemma_all_well_formed_at(xs, i);
                lemma_all_well_formed_at(ys, j);
                lemma_all_well_formed_at(zs, l);
                lemma_depth_all(xs, i);
                lemma_depth_all(ys, j);
                lemma_depth_all(zs, l);
                law_frame_eq_equivalence(xs[i], ys[j], zs[l], true, true, true);
                lemma_member_index_from(zs, xs[i], 0);
            }
        }
    }
}

proof fn lemma_map_equivalence(
    a: Frame,
    b: Frame,
    c: Frame,
    ps: Seq<(Frame, Frame)>,
    qs: Seq<(Frame, Frame)>,
    rs: Seq<(Frame, Frame)>,
    na: bool,
    nb: bool,
    nc: bool,
)
    requires
        well_formed(a, na),
        well_formed(b, nb),
        well_formed(c, nc),
        a is MapValue && b is MapValue && ps == a->MapValue_0 && qs == b->MapValue_0 && (c is MapValue
            ==> rs == c->MapValue_0) && (!(c is MapValue) ==> rs == qs) || a is Attribute
            && b is Attribute && ps == a->Attribute_0 && qs == b->Attribute_0 && (c is Attribute
            ==> rs == c->Attribute_0) && (!(c is Attribute) ==> rs == qs),
    ensures
        ps.len() == qs.len() && entries_within(ps, qs) ==> entries_within(qs, ps),
        ps.len() == qs.len() && entries_within(ps, qs) && entries_within(qs, rs) ==> entries_within(
            ps,
            rs,
        ),
    decreases max3(depth(a), depth(b), depth(c)), 0int,
{
    lemma_entries_within_iff(ps, qs);
    lemma_entries_within_iff(qs, ps);
    lemma_entries_within_iff(qs, rs);
    lemma_entries_within_iff(ps, rs);
    assert(keys_distinct(ps) && keys_distinct(qs) && keys_distinct(rs));
    assert(pairs_well_formed(ps) && pairs_well_formed(qs) && pairs_well_formed(rs));
    if ps.len() == qs.len() && entries_within(ps, qs) {
        let n = ps.len() as int;
        // where each key of `ps` is found in `qs`
        let f = |i: int| if 0 <= i < n {
            key_index_from(qs, ps[i].0, 0)->Some_0
        } else {
            0
        };
        assert forall|i: int| 0 <= i < n implies 0 <= #[trigger] f(i) < n && frame_eq(ps[i].0, qs[f(i)].0)
            && frame_eq(ps[i].1, qs[f(i)].1) by {
            assert(entry_found(ps, qs, i));
            lemma_key_index_from(qs, ps[i].0, 0);
        }
        assert forall|i: int, k: int| 0 <= i < n && 0 <= k < n && #[trigger] f(i) == #[trigger] f(k) implies i == k by {
            let j = f(i);
            lemma_pairs_well_formed_at(ps, i);
            lemma_pairs_well_formed_at(ps, k);
            lemma_pairs_well_formed_at(qs, j);
            lemma_depth_pairs(ps, i);
            lemma_depth_pairs(ps, k);
            lemma_depth_pairs(qs, j);
            law_frame_eq_equivalence(ps[k].0, qs[j].0, ps[i].0, true, true, true);
            law_frame_eq_equivalence(ps[i].0, qs[j].0, ps[k].0, true, true, true);
            law_frame_eq_equivalence(ps[i].0, ps[k].0, ps[k].0, true, true, true);
            if i < k {
                assert(!frame_eq(ps[k].0, ps[i].0));
            } else if k < i {
                assert(!frame_eq(ps[i].0, ps[k].0));
            }
        }
        lemma_onto(n, f);
        assert forall|j: int| 0 <= j < qs.len() implies #[trigger] entry_found(qs, ps, j) by {
            assert(hit(f, n, j));
            let i = choose|i: int| 0 <= i < n && #[trigger] f(i) == j;
            lemma_pairs_well_formed_at(ps, i);
            lemma_pairs_well_formed_at(qs, j);
            lemma_depth_pairs(ps, i);
            lemma_depth_pairs(qs, j);
            law_frame_eq_equivalence(ps[i].0, qs[j].0, qs[j].0, true, true, true);
            law_frame_eq_equivalence(ps[i].1, qs[j].1, qs[j].1, true, true, true);
            lemma_key_index_from(ps, qs[j].0, 0);
            let i2 = key_index_from(ps, qs[j].0, 0)->Some_0;
            if i2 != i {
                lemma_pairs_well_formed_at(ps, i2);
                lemma_depth_pairs(ps, i2);
                law_frame_eq_equivalence(ps[i].0, qs[j].0, ps[i2].0, true, true, true);
                assert(!frame_eq(ps[i].0, ps[i2].0));
            }
        }
        if entries_within(qs, rs) {
            assert forall|i: int| 0 <= i < n implies #[trigger] entry_found(ps, rs, i) by {
                let j = f(i);
                assert(entry_found(qs, rs, j));
                lemma_key_index_from(rs, qs[j].0, 0);
                let l = key_index_from(rs, qs[j].0, 0)->Some_0;
                lemma_pairs_well_formed_at(ps, i);
                lemma_pairs_well_formed_at(qs, j);
                lemma_pairs_well_formed_at(rs, l);
                lemma_depth_pairs(ps, i);
                lemma_depth_pairs(qs, j);
                lemma_depth_pairs(rs, l);
                law_frame_eq_equivalence(ps[i].0, qs[j].0, rs[l].0, true, true, true);
                law_frame_eq_equivalence(ps[i].1, qs[j].1, rs[l].1, true, true, true);
                lemma_key_index_from(rs, ps[i].0, 0);
                let l2 = key_index_from(rs, ps[i].0, 0)->Some_0;
                if l2 != l {
                    lemma_pairs_well_formed_at(rs, l2);
                    lemma_depth_pairs(rs, l2);
                    law_frame_eq_equivalence(qs[j].0, ps[i].0, rs[l2].0, true, true, true);
                    assert(!frame_eq(qs[j].0, rs[l2].0));
                }
            }
        }
    }
}

} // verus!
