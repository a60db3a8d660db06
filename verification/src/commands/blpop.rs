//! `BLPOP`: pops the first element of the first non-empty list among some
//! keys, or blocks until a push to one of them, or until a timeout.
//!
//! The waiting itself is the caller's: [`blpop_start`] either answers at
//! once or queues the request on every key and hands back the receivers;
//! when one of them fires the caller asks [`blpop_woken`] for the answer,
//! and when the timeout passes first, [`blpop_timeout`].

use vstd::prelude::*;
use vstd::utf8::encode_utf8;
use tokio::sync::oneshot::{Receiver, Sender};
use super::types::{ResponseError, bulk, bulk_arg, reply};
use crate::resp::frame::Frame;
use crate::resp::lexical::{float_text_in, is_float_text};
use crate::resp::types::{MultiBulk, RESPValue, frames_of};
use crate::store::store::{
    Store, expired_away, expiry_outcome, pop_front_of, queue_of, read_list, unsubscribed,
};
use crate::store::types::{EntryView, StoreError, ValueView, texts};

verus! {

/// The texts of the values of a request at positions `from` to `to`
/// (excluded), when all of them are bulk strings.
pub open spec fn bulk_args_between(input: Seq<RESPValue>, from: int, to: int) -> Option<
    Seq<Seq<char>>,
> {
    if forall|i: int| from <= i < to ==> #[trigger] bulk_arg(input, i) is Some {
        Some(
            Seq::new(
                (to - from) as nat,
                |j: int|
                    match bulk_arg(input, from + j) {
                        Some(t) => t,
                        None => Seq::empty(),
                    },
            ),
        )
    } else {
        None
    }
}

/// The keys and the timeout text of `BLPOP key [key ...] timeout`; the
/// timeout must be a text that `str::parse::<f64>` accepts.
pub open spec fn blpop_args(input: Seq<RESPValue>) -> Option<(Seq<Seq<char>>, Seq<char>)> {
    if input.len() < 3 {
        None
    } else {
        match bulk_arg(input, input.len() - 1) {
            Some(t) => if is_float_text(encode_utf8(t)) {
                match bulk_args_between(input, 1, input.len() - 1) {
                    Some(ks) => Some((ks, t)),
                    None => None,
                }
            } else {
                None
            },
            None => None,
        }
    }
}

/// A well-formed `BLPOP` request.
pub struct BlockingPop {
    /// The keys, in the order they are tried.
    pub keys: Vec<String>,
    /// The timeout in seconds, as the text of a floating-point number;
    /// zero means no timeout.
    pub timeout: String,
}

/// Reads `BLPOP key [key ...] timeout`.
pub fn blpop_request(input: &MultiBulk) -> (res: Result<BlockingPop, ResponseError>)
    ensures
        match blpop_args(input.0@) {
            None => res matches Err(e) && e == ResponseError::MalformedRequestError,
            Some((ks, t)) => res matches Ok(b) && texts(b.keys@) == ks && b.timeout@ == t,
        },
{
    let n = input.len();
    if n < 3 {
        return Err(ResponseError::MalformedRequestError);
    }
    let timeout = match &input.0[n - 1] {
        RESPValue::BulkString(s) => {
            let b = s.as_str().as_bytes();
            assert(b@.subrange(0, b@.len() as int) =~= encode_utf8(s@));
            if !float_text_in(b, 0, b.len()) {
                return Err(ResponseError::MalformedRequestError);
            }
            s.clone()
        },
        _ => return Err(ResponseError::MalformedRequestError),
    };
    let mut keys: Vec<String> = Vec::new();
    let mut i: usize = 1;
    while i < n - 1
        invariant
            n == input.0@.len(),
            3 <= n,
            1 <= i <= n - 1,
            texts(keys@) =~= Seq::new(
                (i - 1) as nat,
                |j: int|
                    match bulk_arg(input.0@, 1 + j) {
                        Some(t) => t,
                        None => Seq::empty(),
                    },
            ),
            forall|j: int| 1 <= j < i ==> #[trigger] bulk_arg(input.0@, j) is Some,
        decreases n - 1 - i,
    {
        let key = match &input.0[i] {
            RESPValue::BulkString(s) => s.clone(),
            _ => {
                assert(bulk_arg(input.0@, i as int) is None);
                return Err(ResponseError::MalformedRequestError);
            },
        };
        let ghost prev = keys@;
        keys.push(key);
        proof {
            assert(texts(keys@) =~= texts(prev).push(key@));
        }
        i = i + 1;
    }
    Ok(BlockingPop { keys, timeout })
}

/// `after` is `before` with some entries under `keys` expired away, and
/// every list under `keys` reads as empty.
pub open spec fn drained(
    before: Map<Seq<char>, EntryView>,
    after: Map<Seq<char>, EntryView>,
    keys: Seq<Seq<char>>,
) -> bool {
    &&& forall|k: Seq<char>| #[trigger]
        keys.contains(k) ==> read_list(after, k) == Ok::<Seq<Seq<char>>, StoreError>(Seq::empty())
    &&& forall|k: Seq<char>| #[trigger]
        after.contains_key(k) ==> before.contains_key(k) && after[k] == before[k]
    &&& forall|k: Seq<char>| #[trigger]
        before.contains_key(k) ==> (!after.contains_key(k) ==> keys.contains(k)
            && before[k].can_expire())
}

/// `after` is `before` with the request `id` queued on every key of `keys`.
pub open spec fn subscribed(
    before: Map<Seq<char>, Map<u64, Sender<()>>>,
    after: Map<Seq<char>, Map<u64, Sender<()>>>,
    id: u64,
    keys: Seq<Seq<char>>,
) -> bool {
    &&& forall|k: Seq<char>| #[trigger]
        after.contains_key(k) <==> before.contains_key(k) || keys.contains(k)
    &&& forall|k: Seq<char>| #[trigger]
        keys.contains(k) ==> after[k].contains_key(id) && after[k].remove(id) == queue_of(
            before,
            k,
        ).remove(id)
    &&& forall|k: Seq<char>| #[trigger]
        before.contains_key(k) ==> (!keys.contains(k) ==> after[k] == before[k])
}

/// The queues after the request `id` was queued on the keys of `queued`
/// and then taken off those of `keys`.
pub open spec fn left_queues(
    before: Map<Seq<char>, Map<u64, Sender<()>>>,
    id: u64,
    queued: Seq<Seq<char>>,
    keys: Seq<Seq<char>>,
) -> Map<Seq<char>, Map<u64, Sender<()>>> {
    Map::new(
        |k: Seq<char>| before.contains_key(k) || queued.contains(k),
        |k: Seq<char>|
            if keys.contains(k) {
                queue_of(before, k).remove(id)
            } else {
                before[k]
            },
    )
}

/// The reply that names the key of the list popped from and the element.
pub open spec fn popped_reply(key: Seq<char>, element: Seq<char>) -> Frame {
    Frame::Array(seq![bulk(key), bulk(element)])
}

/// How a `BLPOP` request goes on after its keys were tried once.
pub enum BlpopStart {
    /// A list had an element: the reply.
    Served(RESPValue),
    /// Reading a key failed: the error to answer.
    Failed(ResponseError),
    /// Every list was empty: the request is queued on every key under the
    /// id `id`; a receiver for each key, in the order of the keys.
    Blocked { id: u64, receivers: Vec<Receiver<()>> },
}

/// The outcome when the keys before `p` read as empty and the one at `p`
/// gave an element or failed, `mid` being the entries when `p` was read.
pub open spec fn stopped_at(
    e0: Map<Seq<char>, EntryView>,
    e1: Map<Seq<char>, EntryView>,
    w0: Map<Seq<char>, Map<u64, Sender<()>>>,
    w1: Map<Seq<char>, Map<u64, Sender<()>>>,
    id: u64,
    keys: Seq<Seq<char>>,
    p: int,
    mid: Map<Seq<char>, EntryView>,
    res: BlpopStart,
) -> bool {
    &&& 0 <= p < keys.len()
    &&& drained(e0, mid, keys.take(p))
    &&& w1 == left_queues(w0, id, keys.take(p), keys)
    &&& match res {
        BlpopStart::Served(v) => read_list(mid, keys[p]) matches Ok(l) && l.len() > 0 && v@
            == popped_reply(keys[p], l[0]) && e1 == mid.insert(
            keys[p],
            EntryView { value: ValueView::Items(l.skip(1)), expiry: mid[keys[p]].expiry },
        ),
        BlpopStart::Failed(e) => {
            &&& e == ResponseError::MalformedRequestError
            &&& e1 == mid
            &&& mid.contains_key(keys[p])
        },
        BlpopStart::Blocked { .. } => false,
    }
}

/// What [`blpop_start`] leaves, with `e0`, `w0` the entries and queues it
/// started from and `id` the id it drew.
pub open spec fn start_outcome(
    e0: Map<Seq<char>, EntryView>,
    e1: Map<Seq<char>, EntryView>,
    w0: Map<Seq<char>, Map<u64, Sender<()>>>,
    w1: Map<Seq<char>, Map<u64, Sender<()>>>,
    id: u64,
    keys: Seq<Seq<char>>,
    res: BlpopStart,
) -> bool {
    match res {
        BlpopStart::Blocked { id: rid, receivers } => {
            &&& rid == id
            &&& receivers@.len() == keys.len()
            &&& drained(e0, e1, keys)
            &&& subscribed(w0, w1, id, keys)
        },
        _ => exists|p: int, mid: Map<Seq<char>, EntryView>|
            stopped_at(e0, e1, w0, w1, id, keys, p, mid, res),
    }
}

/// How trying `keys` in order on the entries `m` goes, with the clock at
/// `now`.
pub enum KeyScan {
    /// Every list read as empty: the entries once the expired ones went.
    Drained(Map<Seq<char>, EntryView>),
    /// The key whose list gave an element, that element, and the entries
    /// once it was taken off.
    Served(Seq<char>, Seq<char>, Map<Seq<char>, EntryView>),
    /// Reading the key failed: the key, and the entries at that moment.
    Failed(Seq<char>, Map<Seq<char>, EntryView>),
}

/// Tries `keys` in order on `m` with the clock at `now`: an entry past its
/// expiry goes first; an absent key or an empty list goes on to the next
/// key; a list with an element gives it up; a failing clock or a key
/// holding a string stops with a failure.
pub open spec fn scan_at(m: Map<Seq<char>, EntryView>, keys: Seq<Seq<char>>, now: Option<u64>) -> KeyScan
    decreases keys.len(),
{
    if keys.len() == 0 {
        KeyScan::Drained(m)
    } else {
        let k = keys[0];
        match expiry_outcome(m, k, now) {
            (Err(_), _) => KeyScan::Failed(k, m),
            (Ok(true), next) => scan_at(next, keys.drop_first(), now),
            (Ok(false), _) => match read_list(m, k) {
                Err(_) => KeyScan::Failed(k, m),
                Ok(l) => if l.len() == 0 {
                    scan_at(m, keys.drop_first(), now)
                } else {
                    KeyScan::Served(
                        k,
                        l[0],
                        m.insert(k, EntryView { value: ValueView::Items(l.skip(1)), expiry: m[k].expiry }),
                    )
                },
            },
        }
    }
}

/// What [`blpop_start_at`] answers and leaves in the entries, given what
/// trying the keys gave.
pub open spec fn start_at_outcome(scan: KeyScan, e1: Map<Seq<char>, EntryView>, res: BlpopStart) -> bool {
    match scan {
        KeyScan::Drained(m) => res is Blocked && e1 == m,
        KeyScan::Served(k, x, m) => res matches BlpopStart::Served(v) && v@ == popped_reply(k, x) && e1 == m,
        KeyScan::Failed(_, m) => res matches BlpopStart::Failed(e) && e == ResponseError::MalformedRequestError
            && e1 == m,
    }
}

/// Drained entries stay drained after one more key read as empty.
proof fn lemma_drained_step(
    e0: Map<Seq<char>, EntryView>,
    cur: Map<Seq<char>, EntryView>,
    next: Map<Seq<char>, EntryView>,
    keys: Seq<Seq<char>>,
    k: Seq<char>,
)
    requires
        drained(e0, cur, keys),
        read_list(next, k) == Ok::<Seq<Seq<char>>, StoreError>(Seq::empty()),
        next == cur || next == cur.remove(k) && cur.contains_key(k) && cur[k].can_expire(),
    ensures
        drained(e0, next, keys.push(k)),
{
    let ks = keys.push(k);
    assert forall|x: Seq<char>| #[trigger] ks.contains(x) implies read_list(next, x) == Ok::<
        Seq<Seq<char>>,
        StoreError,
    >(Seq::empty()) by {
        lemma_push_contains(keys, k, x);
    }
    assert forall|x: Seq<char>| #[trigger] e0.contains_key(x) implies (!next.contains_key(x)
        ==> ks.contains(x) && e0[x].can_expire()) by {
        lemma_push_contains(keys, k, x);
        if !next.contains_key(x) && x == k && cur.contains_key(x) {
            assert(cur[x] == e0[x]);
        }
    }
}

/// What a sequence with one more element contains.
proof fn lemma_push_contains(s: Seq<Seq<char>>, a: Seq<char>, x: Seq<char>)
    ensures
        s.push(a).contains(x) <==> s.contains(x) || x == a,
{
    let t = s.push(a);
    if s.contains(x) {
        let q = choose|q: int| 0 <= q < s.len() && s[q] == x;
        assert(t[q] == x);
    }
    if x == a {
        assert(t[s.len() as int] == a);
    }
    if t.contains(x) && x != a {
        let q = choose|q: int| 0 <= q < t.len() && t[q] == x;
        assert(s[q] == x);
    }
}

/// The queues after one more key was subscribed to.
proof fn lemma_subscribed_step(
    w0: Map<Seq<char>, Map<u64, Sender<()>>>,
    cur: Map<Seq<char>, Map<u64, Sender<()>>>,
    next: Map<Seq<char>, Map<u64, Sender<()>>>,
    id: u64,
    keys: Seq<Seq<char>>,
    k: Seq<char>,
    tx: Sender<()>,
)
    requires
        subscribed(w0, cur, id, keys),
        next == cur.insert(k, queue_of(cur, k).insert(id, tx)),
    ensures
        subscribed(w0, next, id, keys.push(k)),
{
    let ks = keys.push(k);
    assert forall|x: Seq<char>| #[trigger] next.contains_key(x) <==> w0.contains_key(x)
        || ks.contains(x) by {
        lemma_push_contains(keys, k, x);
    }
    assert forall|x: Seq<char>| #[trigger] ks.contains(x) implies next[x].contains_key(id)
        && next[x].remove(id) == queue_of(w0, x).remove(id) by {
        lemma_push_contains(keys, k, x);
        if x == k {
            let q = queue_of(cur, k);
            assert(next[k] == q.insert(id, tx));
            assert(next[k].remove(id) =~= q.remove(id));
            if keys.contains(k) {
                assert(cur.contains_key(k));
                assert(q == cur[k]);
                assert(cur[k].remove(id) == queue_of(w0, k).remove(id));
            } else if w0.contains_key(k) {
                assert(cur[k] == w0[k]);
            } else {
                assert(!cur.contains_key(k));
                assert(q.remove(id) =~= queue_of(w0, k).remove(id));
            }
        } else {
            assert(keys.contains(x));
            assert(next[x] == cur[x]);
            assert(cur[x].contains_key(id));
        }
    }
    assert forall|x: Seq<char>| #[trigger] w0.contains_key(x) implies (!ks.contains(x) ==> next[x]
        == w0[x]) by {
        lemma_push_contains(keys, k, x);
    }
}

/// Taking the request off the queues of all the keys, after it was queued
/// on those of a prefix of them.
proof fn lemma_left_queues(
    w0: Map<Seq<char>, Map<u64, Sender<()>>>,
    cur: Map<Seq<char>, Map<u64, Sender<()>>>,
    id: u64,
    keys: Seq<Seq<char>>,
    p: int,
)
    requires
        0 <= p <= keys.len(),
        subscribed(w0, cur, id, keys.take(p)),
    ensures
        unsubscribed(cur, id, keys) == left_queues(w0, id, keys.take(p), keys),
{
    let sub = keys.take(p);
    let lhs = unsubscribed(cur, id, keys);
    let rhs = left_queues(w0, id, sub, keys);
    assert forall|x: Seq<char>| #[trigger] lhs.contains_key(x) <==> rhs.contains_key(x) by {
        assert(cur.contains_key(x) <==> w0.contains_key(x) || sub.contains(x));
    }
    assert forall|x: Seq<char>| #[trigger] lhs.contains_key(x) implies lhs[x] == rhs[x] by {
        assert(cur.contains_key(x) <==> w0.contains_key(x) || sub.contains(x));
        if sub.contains(x) {
            let q = choose|q: int| 0 <= q < sub.len() && sub[q] == x;
            assert(keys[q] == x);
            assert(keys.contains(x));
            assert(cur[x].contains_key(id));
            assert(cur[x].remove(id) == queue_of(w0, x).remove(id));
        } else {
            assert(w0.contains_key(x));
            assert(cur[x] == w0[x]);
        }
    }
    assert(lhs =~= rhs);
}

/// The reply naming the key and the element popped.
fn popped_value(key: &String, element: &String) -> (res: RESPValue)
    ensures
        res@ == popped_reply(key@, element@),
{
    let items = vec![
        RESPValue::BulkString(key.clone()),
        RESPValue::BulkString(element.clone()),
    ];
    proof {
        assert(frames_of(items@) =~= seq![bulk(key@), bulk(element@)]);
    }
    RESPValue::Array(MultiBulk(items))
}

/// Tries the keys from position `j` on, the ones before it having read as
/// empty and been subscribed to under `id`.
fn scan_keys(
    store: &mut Store,
    id: u64,
    keys: &Vec<String>,
    j: usize,
    receivers: Vec<Receiver<()>>,
    now: Option<u64>,
    Ghost(e0): Ghost<Map<Seq<char>, EntryView>>,
    Ghost(w0): Ghost<Map<Seq<char>, Map<u64, Sender<()>>>>,
) -> (res: BlpopStart)
    requires
        j <= keys@.len(),
        old(store).wf(),
        receivers@.len() == j,
        drained(e0, old(store).entries(), texts(keys@).take(j as int)),
        subscribed(w0, old(store).waiting(), id, texts(keys@).take(j as int)),
    ensures
        final(store).wf(),
        final(store).ticks() == old(store).ticks(),
        final(store).clock() == old(store).clock(),
        start_outcome(e0, final(store).entries(), w0, final(store).waiting(), id, texts(keys@), res),
        start_at_outcome(
            scan_at(old(store).entries(), texts(keys@).skip(j as int), now),
            final(store).entries(),
            res,
        ),
    decreases keys@.len() - j,
{
    let ghost ks = texts(keys@);
    if j == keys.len() {
        assert(ks.take(j as int) =~= ks);
        assert(ks.skip(j as int).len() == 0);
        return BlpopStart::Blocked { id, receivers };
    }
    let ghost cur = store.entries();
    let key = &keys[j];
    proof {
        assert(ks.skip(j as int)[0] == key@);
        assert(ks.skip(j as int).drop_first() =~= ks.skip(j + 1));
        if let (Ok(true), _) = expiry_outcome(cur, key@, now) {
            let t = now->0;
            assert(cur[key@].expired_at(t));
            assert(cur[key@].can_expire());
        }
    }
    let popped = store.lpop_at(key.as_str(), 1, now);
    let ghost mid_w = store.waiting();
    match popped {
        Ok(elems) => {
            if elems.len() == 0 {
                let mut receivers = receivers;
                proof {
                    let after = store.entries();
                    if !expired_away(cur, after, key@) {
                        assert(pop_front_of(cur, key@, 1) == Ok::<
                            (Seq<Seq<char>>, Map<Seq<char>, EntryView>),
                            StoreError,
                        >((texts(elems@), after)));
                        if cur.contains_key(key@) {
                            match cur[key@].value {
                                ValueView::Items(l) => {
                                    assert(l.take(if 1 < l.len() { 1 } else { l.len() as int }).len() == 0);
                                    assert(l =~= Seq::<Seq<char>>::empty());
                                    assert(l.skip(0) =~= l);
                                    assert(after =~= cur);
                                },
                                _ => {},
                            }
                        }
                    }
                    assert(ks.take(j + 1) =~= ks.take(j as int).push(key@));
                    lemma_drained_step(e0, cur, store.entries(), ks.take(j as int), key@);
                }
                let rx = store.subscribe(id, key.as_str());
                proof {
                    let w = store.waiting();
                    lemma_subscribed_step(w0, mid_w, w, id, ks.take(j as int), key@, w[key@][id]);
                }
                receivers.push(rx);
                scan_keys(store, id, keys, j + 1, receivers, now, Ghost(e0), Ghost(w0))
            } else {
                let ghost after_pop = store.entries();
                proof {
                    assert(!expired_away(cur, after_pop, key@));
                    assert(pop_front_of(cur, key@, 1) == Ok::<
                        (Seq<Seq<char>>, Map<Seq<char>, EntryView>),
                        StoreError,
                    >((texts(elems@), after_pop)));
                    assert(texts(elems@).len() > 0);
                    if !cur.contains_key(key@) {
                        assert(texts(elems@) == Seq::<Seq<char>>::empty());
                    }
                    match cur[key@].value {
                        ValueView::Items(l) => {
                            let c = if 1 < l.len() { 1 } else { l.len() as int };
                            assert(texts(elems@) == l.take(c));
                            assert(texts(elems@)[0] == l.take(c)[0]);
                        },
                        _ => {},
                    }
                }
                store.unsubscribe(id, keys);
                let res = BlpopStart::Served(popped_value(key, &elems[0]));
                proof {
                    lemma_left_queues(w0, mid_w, id, ks, j as int);
                    assert(ks[j as int] == key@);
                    assert(stopped_at(
                        e0,
                        store.entries(),
                        w0,
                        store.waiting(),
                        id,
                        ks,
                        j as int,
                        cur,
                        res,
                    ));
                }
                res
            }
        },
        Err(_) => {
            store.unsubscribe(id, keys);
            let res = BlpopStart::Failed(ResponseError::MalformedRequestError);
            proof {
                lemma_left_queues(w0, mid_w, id, ks, j as int);
                assert(ks[j as int] == key@);
                assert(stopped_at(e0, store.entries(), w0, store.waiting(), id, ks, j as int, cur, res));
            }
            res
        },
    }
}

/// Draws an id and tries the keys in order with the clock at `now` (Unix
/// time in milliseconds, or `None` when the clock failed): the first list
/// with an element gives it up, and the request is answered; a failing
/// read fails it; when every list is empty, the request is queued on every
/// key.
pub fn blpop_start_at(store: &mut Store, keys: &Vec<String>, now: Option<u64>) -> (res: BlpopStart)
    requires
        old(store).wf(),
        old(store).ticks() < u64::MAX,
    ensures
        final(store).wf(),
        final(store).ticks() == old(store).ticks() + 1,
        final(store).clock() == old(store).clock(),
        start_outcome(
            old(store).entries(),
            final(store).entries(),
            old(store).waiting(),
            final(store).waiting(),
            final(store).ticks(),
            texts(keys@),
            res,
        ),
        start_at_outcome(scan_at(old(store).entries(), texts(keys@), now), final(store).entries(), res),
{
    let ghost e0 = store.entries();
    let ghost w0 = store.waiting();
    let id = store.count();
    proof {
        assert(texts(keys@).take(0) =~= Seq::<Seq<char>>::empty());
        assert(texts(keys@).skip(0) =~= texts(keys@));
        assert(subscribed(w0, store.waiting(), id, Seq::empty()));
    }
    scan_keys(store, id, keys, 0, Vec::new(), now, Ghost(e0), Ghost(w0))
}

/// [`blpop_start_at`] with the wall clock read once, before the keys are
/// tried.
pub fn blpop_start(store: &mut Store, keys: &Vec<String>) -> (res: BlpopStart)
    requires
        old(store).wf(),
        old(store).ticks() < u64::MAX,
    ensures
        final(store).wf(),
        final(store).ticks() == old(store).ticks() + 1,
        start_outcome(
            old(store).entries(),
            final(store).entries(),
            old(store).waiting(),
            final(store).waiting(),
            final(store).ticks(),
            texts(keys@),
            res,
        ),
        exists|now: Option<u64>|
            start_at_outcome(#[trigger] scan_at(old(store).entries(), texts(keys@), now), final(store).entries(), res),
        start_at_outcome(scan_at(old(store).entries(), texts(keys@), final(store).clock()), final(store).entries(), res),
{
    let now = store.read_clock();
    blpop_start_at(store, keys, now)
}

/// What a woken request answers and leaves in the entries, with `e0` the
/// entries it found, `k` the key whose receiver fired and the clock at
/// `now`: the first element of `k`'s list once an expired entry went, and
/// `InternalError` when the clock failed, the key holds a string, or the
/// list is empty by now.
pub open spec fn woken_outcome(
    e0: Map<Seq<char>, EntryView>,
    e1: Map<Seq<char>, EntryView>,
    k: Seq<char>,
    now: Option<u64>,
    res: Result<Frame, ResponseError>,
) -> bool {
    match expiry_outcome(e0, k, now) {
        (Err(_), _) => res == Err::<Frame, ResponseError>(ResponseError::InternalError) && e1 == e0,
        (Ok(true), m) => res == Err::<Frame, ResponseError>(ResponseError::InternalError) && e1 == m,
        (Ok(false), _) => match pop_front_of(e0, k, 1) {
            Err(_) => res == Err::<Frame, ResponseError>(ResponseError::InternalError) && e1 == e0,
            Ok((p, after)) => if p.len() == 0 {
                res == Err::<Frame, ResponseError>(ResponseError::InternalError) && e1 == after
            } else {
                res == Ok::<Frame, ResponseError>(popped_reply(k, p[0])) && e1 == after
            },
        },
    }
}

/// Answers a queued request once the receiver of the key at `idx` fired,
/// with the clock at `now`: takes the request off the queues of all its
/// keys and pops the first element of that key's list.
pub fn blpop_woken_at(
    store: &mut Store,
    id: u64,
    keys: &Vec<String>,
    idx: usize,
    now: Option<u64>,
) -> (res: Result<RESPValue, ResponseError>)
    requires
        old(store).wf(),
        idx < keys@.len(),
    ensures
        final(store).wf(),
        final(store).ticks() == old(store).ticks(),
        final(store).clock() == old(store).clock(),
        final(store).waiting() == unsubscribed(old(store).waiting(), id, texts(keys@)),
        woken_outcome(old(store).entries(), final(store).entries(), keys@[idx as int]@, now, reply(res)),
{
    let key = &keys[idx];
    store.unsubscribe(id, keys);
    let elems = match store.lpop_at(key.as_str(), 1, now) {
        Ok(v) => v,
        Err(_) => return Err(ResponseError::InternalError),
    };
    if elems.len() == 0 {
        return Err(ResponseError::InternalError);
    }
    proof {
        assert(texts(elems@).len() > 0);
    }
    Ok(popped_value(key, &elems[0]))
}

/// [`blpop_woken_at`] with the wall clock. `InternalError` when the store
/// fails or the list is empty by now.
pub fn blpop_woken(store: &mut Store, id: u64, keys: &Vec<String>, idx: usize) -> (res: Result<
    RESPValue,
    ResponseError,
>)
    requires
        old(store).wf(),
        idx < keys@.len(),
    ensures
        final(store).wf(),
        final(store).ticks() == old(store).ticks(),
        final(store).waiting() == unsubscribed(old(store).waiting(), id, texts(keys@)),
        exists|now: Option<u64>|
            woken_outcome(old(store).entries(), final(store).entries(), keys@[idx as int]@, now, reply(res)),
        woken_outcome(
            old(store).entries(),
            final(store).entries(),
            keys@[idx as int]@,
            final(store).clock(),
            reply(res),
        ),
        ({
            let k = keys@[idx as int]@;
            let e0 = old(store).entries();
            let e1 = final(store).entries();
            match reply(res) {
                Ok(f) => pop_front_of(e0, k, 1) matches Ok((p, after)) && p.len() == 1 && after == e1
                    && f == popped_reply(k, p[0]),
                Err(e) => {
                    &&& e == ResponseError::InternalError
                    &&& (e1 == e0 || expired_away(e0, e1, k) || (pop_front_of(e0, k, 1) matches Ok(
                        (p, after),
                    ) && p.len() == 0 && after == e1))
                },
            }
        }),
{
    let ghost e0 = store.entries();
    let ghost k = keys@[idx as int]@;
    let now = store.read_clock();
    proof {
        if let (Ok(true), _) = expiry_outcome(e0, k, now) {
            let t = now->0;
            assert(e0[k].expired_at(t));
            assert(e0[k].can_expire());
        }
    }
    blpop_woken_at(store, id, keys, idx, now)
}

/// Answers a queued request whose timeout passed first: takes it off the
/// queues of all its keys and replies with a null array.
pub fn blpop_timeout(store: &mut Store, id: u64, keys: &Vec<String>) -> (res: RESPValue)
    requires
        old(store).wf(),
    ensures
        final(store).wf(),
        final(store).ticks() == old(store).ticks(),
        final(store).clock() == old(store).clock(),
        final(store).entries() == old(store).entries(),
        final(store).waiting() == unsubscribed(old(store).waiting(), id, texts(keys@)),
        res@ == Frame::NullArray,
{
    store.unsubscribe(id, keys);
    RESPValue::NullArray
}

} // verus!
