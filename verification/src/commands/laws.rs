//! Properties that span the request handlers.

use vstd::prelude::*;
use super::get::get_reply;
use super::types::{ResponseError, bulk, lazy_reply, reply_at};
use crate::resp::frame::Frame;
use crate::store::store::{expiry_outcome, read_list};
use crate::store::types::{EntryView, StoreError, ValueView};
use super::blpop::{BlpopStart, KeyScan, drained, scan_at, start_outcome, stopped_at};
use tokio::sync::oneshot::Sender;

verus! {

/// A `GET` after a `SET` of the same key answers the value that was set:
/// an entry that `SET` writes has no expiry, so only a failing clock can
/// keep the read from it, and the read changes nothing.
pub proof fn law_get_after_set(
    m: Map<Seq<char>, EntryView>,
    after: Map<Seq<char>, EntryView>,
    key: Seq<char>,
    value: Seq<char>,
    r: Result<Frame, ResponseError>,
)
    requires
        lazy_reply(
            m.insert(key, EntryView { value: ValueView::Text(value), expiry: None }),
            after,
            key,
            r,
            get_reply(m.insert(key, EntryView { value: ValueView::Text(value), expiry: None }), key),
            Frame::NullBulkString,
        ),
    ensures
        r == Ok::<Frame, ResponseError>(bulk(value)) || r == Err::<Frame, ResponseError>(
            ResponseError::InternalError,
        ),
        after == m.insert(key, EntryView { value: ValueView::Text(value), expiry: None }),
{
}


/// A list that holds an element and has no expiry cannot read as empty
/// after a blocking pop tried its key.
proof fn lemma_drained_nonempty(
    e0: Map<Seq<char>, EntryView>,
    e1: Map<Seq<char>, EntryView>,
    keys: Seq<Seq<char>>,
    k: Seq<char>,
)
    requires
        keys.contains(k),
        read_list(e0, k) matches Ok(l) && l.len() > 0,
        e0[k].expiry is None,
    ensures
        !drained(e0, e1, keys),
{
    if drained(e0, e1, keys) {
        assert(read_list(e1, k) == Ok::<Seq<Seq<char>>, StoreError>(Seq::empty()));
        if e1.contains_key(k) {
            assert(e1[k] == e0[k]);
        }
    }
}

/// `BLPOP` never blocks while one of its keys holds a list with an element
/// and no expiry; and when it answers at once, no key before the one it
/// popped from held such a list.
pub proof fn law_blpop_takes_first_nonempty(
    e0: Map<Seq<char>, EntryView>,
    e1: Map<Seq<char>, EntryView>,
    w0: Map<Seq<char>, Map<u64, Sender<()>>>,
    w1: Map<Seq<char>, Map<u64, Sender<()>>>,
    id: u64,
    keys: Seq<Seq<char>>,
    res: BlpopStart,
    k: Seq<char>,
)
    requires
        start_outcome(e0, e1, w0, w1, id, keys, res),
        keys.contains(k),
        read_list(e0, k) matches Ok(l) && l.len() > 0,
        e0[k].expiry is None,
    ensures
        !(res is Blocked),
        forall|p: int, mid: Map<Seq<char>, EntryView>|
            #![trigger stopped_at(e0, e1, w0, w1, id, keys, p, mid, res)]
            stopped_at(e0, e1, w0, w1, id, keys, p, mid, res) ==> !keys.take(p).contains(k),
{
    if res is Blocked {
        lemma_drained_nonempty(e0, e1, keys, k);
    }
    assert forall|p: int, mid: Map<Seq<char>, EntryView>|
        #![trigger stopped_at(e0, e1, w0, w1, id, keys, p, mid, res)]
        stopped_at(e0, e1, w0, w1, id, keys, p, mid, res) implies !keys.take(p).contains(k) by {
        if keys.take(p).contains(k) {
            lemma_drained_nonempty(e0, mid, keys.take(p), k);
        }
    }
}

/// `GET` at a clock reading `t` of a string that is live at `t` (no expiry,
/// or one no earlier than `t`) answers that string and removes nothing.
pub proof fn law_get_live_string(
    m: Map<Seq<char>, EntryView>,
    after: Map<Seq<char>, EntryView>,
    key: Seq<char>,
    v: Seq<char>,
    t: u64,
    res: Result<Frame, ResponseError>,
)
    requires
        m.contains_key(key),
        m[key].value == ValueView::Text(v),
        m[key].expiry matches Some(e) ==> t <= e,
        reply_at(m, after, key, Some(t), res, get_reply(m, key), Frame::NullBulkString),
    ensures
        res == Ok::<Frame, ResponseError>(bulk(v)),
        after == m,
{
}

/// Trying `BLPOP`'s keys at a clock reading `t` never removes an entry that
/// is live at `t` (no expiry, or one no earlier than `t`): it stays as it
/// was, except that the list it pops from loses its head.
pub proof fn law_blpop_keeps_live_entries(
    m: Map<Seq<char>, EntryView>,
    keys: Seq<Seq<char>>,
    t: u64,
    k: Seq<char>,
)
    requires
        m.contains_key(k),
        m[k].expiry matches Some(e) ==> t <= e,
    ensures
        match scan_at(m, keys, Some(t)) {
            KeyScan::Drained(m2) => m2.contains_key(k) && m2[k] == m[k],
            KeyScan::Failed(_, m2) => m2.contains_key(k) && m2[k] == m[k],
            KeyScan::Served(k2, _, m2) => m2.contains_key(k) && (k2 != k ==> m2[k] == m[k]),
        },
    decreases keys.len(),
{
    if keys.len() > 0 {
        let k0 = keys[0];
        match expiry_outcome(m, k0, Some(t)) {
            (Ok(true), next) => {
                assert(k0 != k);
                law_blpop_keeps_live_entries(next, keys.drop_first(), t, k);
            },
            (Ok(false), _) => {
                if let Ok(l) = read_list(m, k0) {
                    if l.len() == 0 {
                        law_blpop_keeps_live_entries(m, keys.drop_first(), t, k);
                    }
                }
            },
            _ => {},
        }
    }
}

/// `BLPOP` at a clock reading `t` whose first key holds a string live at `t`
/// fails at that key and changes nothing; whose first key holds a live list
/// with an element pops that element from it.
pub proof fn law_blpop_first_live_key(m: Map<Seq<char>, EntryView>, keys: Seq<Seq<char>>, t: u64)
    requires
        keys.len() > 0,
        m.contains_key(keys[0]),
        m[keys[0]].expiry matches Some(e) ==> t <= e,
    ensures
        m[keys[0]].value is Text ==> scan_at(m, keys, Some(t)) == KeyScan::Failed(keys[0], m),
        m[keys[0]].value matches ValueView::Items(l) ==> (l.len() > 0 ==> scan_at(m, keys, Some(t))
            == KeyScan::Served(
            keys[0],
            l[0],
            m.insert(keys[0], EntryView { value: ValueView::Items(l.skip(1)), expiry: m[keys[0]].expiry }),
        )),
{
}

} // verus!
