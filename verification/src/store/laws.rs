//! Properties of the store that span its operations.

use vstd::prelude::*;
use tokio::sync::oneshot::Sender;
use super::store::{
    expiry_outcome, normalized, pop_front_of, queue_of, range_of, read_at, read_list, read_range,
    unsubscribed,
};
use super::types::{EntryView, StoreError, ValueView};

verus! {

/// A normalized index of a non-empty list lies inside the list.
pub proof fn law_normalized_in_bounds(idx: int, len: int)
    requires
        len > 0,
    ensures
        0 <= normalized(idx, len) < len,
{
}

/// The range from `0` to `-1` of a non-empty list is the whole list.
pub proof fn law_full_range(l: Seq<Seq<char>>)
    requires
        l.len() > 0,
    ensures
        range_of(l, 0, -1) == l,
{
    assert(l.subrange(0, l.len() as int) =~= l);
}

/// A range of a non-empty list is a run of consecutive elements of it.
pub proof fn law_range_is_slice(l: Seq<Seq<char>>, start: int, stop: int)
    requires
        l.len() > 0,
    ensures
        exists|b: int, e: int|
            0 <= b <= e <= l.len() && range_of(l, start, stop) == l.subrange(b, e),
{
    if start > 0 && start > l.len() {
        assert(range_of(l, start, stop) =~= l.subrange(0, 0));
    } else {
        let b = normalized(start, l.len() as int);
        let e = normalized(stop, l.len() as int);
        if b > e {
            assert(range_of(l, start, stop) =~= l.subrange(0, 0));
        } else {
            assert(range_of(l, start, stop) == l.subrange(b, e + 1));
        }
    }
}

/// Popping `n` elements off a list splits it: the elements taken, followed
/// by the list that stays, give back the list; and as many are taken as
/// asked for, or all of them.
pub proof fn law_pop_splits(m: Map<Seq<char>, EntryView>, key: Seq<char>, n: int)
    requires
        n >= 0,
        read_list(m, key) is Ok,
    ensures
        pop_front_of(m, key, n) matches Ok((taken, after)) && {
            let l = read_list(m, key)->Ok_0;
            &&& read_list(after, key) matches Ok(rest) && taken + rest == l
            &&& taken.len() == if n < l.len() { n } else { l.len() as int }
        },
{
    let l = read_list(m, key)->Ok_0;
    if m.contains_key(key) {
        let c = if n < l.len() {
            n
        } else {
            l.len() as int
        };
        assert(l.take(c) + l.skip(c) =~= l);
    } else {
        assert(Seq::<Seq<char>>::empty() + Seq::<Seq<char>>::empty() =~= l);
    }
}

/// The elements pushed onto the front of a list, one by one, come off it
/// again first, and in the reverse order of the pushes.
pub proof fn law_push_front_pop(
    m: Map<Seq<char>, EntryView>,
    key: Seq<char>,
    l: Seq<Seq<char>>,
    els: Seq<Seq<char>>,
    expiry: Option<u64>,
)
    ensures
        pop_front_of(
            m.insert(key, EntryView { value: ValueView::Items(els.reverse() + l), expiry }),
            key,
            els.len() as int,
        ) matches Ok((taken, _)) && taken == els.reverse(),
{
    let s = els.reverse() + l;
    assert(s.take(els.len() as int) =~= els.reverse());
}

/// The elements appended to the back of a list come after all the
/// elements it held: a full range gives the old list, then the new ones.
pub proof fn law_push_back_range(
    m: Map<Seq<char>, EntryView>,
    key: Seq<char>,
    l: Seq<Seq<char>>,
    els: Seq<Seq<char>>,
    expiry: Option<u64>,
)
    requires
        l.len() + els.len() > 0,
    ensures
        read_range(
            m.insert(key, EntryView { value: ValueView::Items(l + els), expiry }),
            key,
            0,
            -1,
        ) == Ok::<Seq<Seq<char>>, StoreError>(l + els),
{
    law_full_range(l + els);
}

/// An entry without expiry never expires; and one that is expired at a
/// time stays expired at every later time.
pub proof fn law_expiry(e: EntryView, t1: u64, t2: u64)
    ensures
        e.expiry is None ==> !e.expired_at(t1),
        e.expired_at(t1) && t1 <= t2 ==> e.expired_at(t2),
{
}

/// Queuing a request on a key and then taking it off that key's queue
/// leaves the queue as it was without that request.
pub proof fn law_unsubscribe_undoes_subscribe(
    w: Map<Seq<char>, Map<u64, Sender<()>>>,
    key: Seq<char>,
    id: u64,
    tx: Sender<()>,
)
    ensures
        unsubscribed(w.insert(key, queue_of(w, key).insert(id, tx)), id, seq![key])[key]
            == queue_of(w, key).remove(id),
        forall|k: Seq<char>| #[trigger]
            w.contains_key(k) && k != key ==> unsubscribed(
                w.insert(key, queue_of(w, key).insert(id, tx)),
                id,
                seq![key],
            )[k] == w[k],
{
    let w2 = w.insert(key, queue_of(w, key).insert(id, tx));
    assert(seq![key].contains(key)) by {
        assert(seq![key][0] == key);
    }
    assert(queue_of(w, key).insert(id, tx).remove(id) =~= queue_of(w, key).remove(id));
    assert forall|k: Seq<char>| #[trigger] w.contains_key(k) && k != key implies unsubscribed(
        w2,
        id,
        seq![key],
    )[k] == w[k] by {
        assert(!seq![key].contains(k));
    }
}

/// At a clock reading `t` no later than its expiry (or with no expiry), an
/// entry is live: nothing is removed, and the entries stay as they are.
pub proof fn law_live_entry_stays(m: Map<Seq<char>, EntryView>, key: Seq<char>, t: u64)
    requires
        m.contains_key(key),
        m[key].expiry matches Some(e) ==> t <= e,
    ensures
        expiry_outcome(m, key, Some(t)) == (Ok::<bool, StoreError>(false), m),
{
}

/// At a clock reading `t` past its expiry, an entry is removed, and with it
/// only that key.
pub proof fn law_expired_entry_goes(m: Map<Seq<char>, EntryView>, key: Seq<char>, t: u64, e: u64)
    requires
        m.contains_key(key),
        m[key].expiry == Some(e),
        e < t,
    ensures
        expiry_outcome(m, key, Some(t)) == (Ok::<bool, StoreError>(true), m.remove(key)),
{
}

/// A read at a clock reading `t` of a live entry (no expiry, or one no
/// earlier than `t`) changes nothing and gives what the entries hold; so
/// `get` gives the entry, and `lrange` of a string gives `WrongType`.
pub proof fn law_live_read<T>(
    before: Map<Seq<char>, EntryView>,
    after: Map<Seq<char>, EntryView>,
    key: Seq<char>,
    t: u64,
    res: Result<T, StoreError>,
    read: Result<T, StoreError>,
    gone: T,
)
    requires
        before.contains_key(key),
        before[key].expiry matches Some(e) ==> t <= e,
        read_at(before, after, key, Some(t), res, read, gone),
    ensures
        after == before,
        res == read,
{
}

/// A read at a clock reading `t` past the entry's expiry removes the entry
/// and gives what an absent key gives.
pub proof fn law_expired_read<T>(
    before: Map<Seq<char>, EntryView>,
    after: Map<Seq<char>, EntryView>,
    key: Seq<char>,
    t: u64,
    e: u64,
    res: Result<T, StoreError>,
    read: Result<T, StoreError>,
    gone: T,
)
    requires
        before.contains_key(key),
        before[key].expiry == Some(e),
        e < t,
        read_at(before, after, key, Some(t), res, read, gone),
    ensures
        after == before.remove(key),
        res == Ok::<T, StoreError>(gone),
{
}

/// A pop at a clock reading `t` of a live string (no expiry, or one no
/// earlier than `t`) is refused with `WrongType` and leaves the string.
pub proof fn law_live_string_not_popped(
    m: Map<Seq<char>, EntryView>,
    key: Seq<char>,
    v: Seq<char>,
    t: u64,
    n: int,
)
    requires
        m.contains_key(key),
        m[key].value == ValueView::Text(v),
        m[key].expiry matches Some(e) ==> t <= e,
    ensures
        expiry_outcome(m, key, Some(t)) == (Ok::<bool, StoreError>(false), m),
        pop_front_of(m, key, n) == Err::<(Seq<Seq<char>>, Map<Seq<char>, EntryView>), StoreError>(
            StoreError::WrongType,
        ),
        read_range(m, key, 0, -1) == Err::<Seq<Seq<char>>, StoreError>(StoreError::WrongType),
{
}

} // verus!
