//! Wake-up signals for clients blocked on a key: one-shot channels that
//! carry no data, queued per key in the order of the waiting requests.

use vstd::prelude::*;
use std::collections::BTreeMap;
use tokio::sync::oneshot::{self, Receiver, Sender};

verus! {

#[verifier::external_type_specification]
#[verifier::external_body]
#[verifier::reject_recursive_types(T)]
pub struct ExSender<T>(Sender<T>);

#[verifier::external_type_specification]
#[verifier::external_body]
#[verifier::reject_recursive_types(T)]
pub struct ExReceiver<T>(Receiver<T>);

#[verifier::external_type_specification]
#[verifier::external_body]
pub struct ExRecvError(oneshot::error::RecvError);

/// tokio's `oneshot::channel`: a sender and the receiver it reaches. They
/// are opaque here, so nothing is stated of them.
#[verifier::external_body]
pub(crate) fn open_channel() -> (Sender<()>, Receiver<()>) {
    oneshot::channel::<()>()
}

/// tokio's `oneshot::Sender::send` with the unit value. Whether it succeeds
/// depends on whether the receiving task still holds its end, so nothing is
/// stated of the outcome.
#[verifier::external_body]
pub(crate) fn signal(tx: Sender<()>) -> Result<(), ()> {
    tx.send(())
}

/// std's `BTreeMap::pop_first`: removes the entry with the least key and
/// hands it back, or gives `None` and changes nothing when the map is empty.
#[verifier::external_body]
pub(crate) fn pop_least(m: &mut BTreeMap<u64, Sender<()>>) -> (res: Option<(u64, Sender<()>)>)
    ensures
        match res {
            None => old(m)@.dom().is_empty() && final(m)@ == old(m)@,
            Some((k, tx)) => {
                &&& old(m)@.contains_key(k)
                &&& old(m)@[k] == tx
                &&& forall|j: u64| old(m)@.contains_key(j) ==> k <= j
                &&& final(m)@ == old(m)@.remove(k)
            },
        },
{
    m.pop_first()
}

/// The queue of a key after the waiters at its front were released: some
/// entries are gone, each of them ordered before every entry that stays, and
/// at least one is gone if there was any.
pub open spec fn released_front(before: Map<u64, Sender<()>>, after: Map<u64, Sender<()>>) -> bool {
    &&& forall|j: u64| #[trigger] after.contains_key(j) ==> before.contains_key(j) && after[j] == before[j]
    &&& forall|r: u64, j: u64|
        before.contains_key(r) && !after.contains_key(r) && after.contains_key(j) ==> r < j
    &&& !before.dom().is_empty() ==> exists|r: u64| before.contains_key(r) && !after.contains_key(r)
}

/// `released` lists, in increasing order, exactly the waiters that left
/// `before` on the way to `after`, each with whether it took the signal:
/// none but the last took it, and the release went on until one took it
/// or the queue ran out.
pub open spec fn released_in_order(
    before: Map<u64, Sender<()>>,
    after: Map<u64, Sender<()>>,
    released: Seq<(u64, bool)>,
) -> bool {
    &&& forall|j: u64|
        (before.contains_key(j) && !after.contains_key(j)) <==> exists|i: int|
            0 <= i < released.len() && #[trigger] released[i].0 == j
    &&& forall|i: int, l: int| 0 <= i < l < released.len() ==> released[i].0 < released[l].0
    &&& forall|i: int| 0 <= i < released.len() - 1 ==> !(#[trigger] released[i].1)
    &&& (released.len() > 0 && released.last().1) || after.dom().is_empty()
}

/// Releases waiters from the front of `m` until one of them takes the
/// signal, or none is left. Gives each released waiter's id, in order,
/// with whether it took the signal.
pub(crate) fn release_front(m: &mut BTreeMap<u64, Sender<()>>) -> (res: Vec<(u64, bool)>)
    ensures
        released_front(old(m)@, final(m)@),
        released_in_order(old(m)@, final(m)@, res@),
{
    let ghost before = m@;
    let mut released: Vec<(u64, bool)> = Vec::new();
    loop
        invariant_except_break
            forall|i: int| 0 <= i < released@.len() ==> !(#[trigger] released@[i].1),
        invariant
            forall|j: u64| #[trigger] m@.contains_key(j) ==> before.contains_key(j) && m@[j] == before[j],
            forall|r: u64, j: u64|
                before.contains_key(r) && !m@.contains_key(r) && m@.contains_key(j) ==> r < j,
            forall|j: u64|
                (before.contains_key(j) && !m@.contains_key(j)) <==> exists|i: int|
                    0 <= i < released@.len() && #[trigger] released@[i].0 == j,
            forall|i: int, l: int|
                0 <= i < l < released@.len() ==> released@[i].0 < released@[l].0,
            forall|i: int| 0 <= i < released@.len() - 1 ==> !(#[trigger] released@[i].1),
        ensures
            released_front(before, m@),
            released_in_order(before, m@, released@),
        decreases m@.dom().len(),
    {
        let ghost prev = m@;
        let ghost prev_rel = released@;
        match pop_least(m) {
            None => {
                proof {
                    if !before.dom().is_empty() {
                        let r = before.dom().choose();
                        assert(before.contains_key(r) && !m@.contains_key(r));
                    }
                }
                break;
            },
            Some((k, tx)) => {
                proof {
                    assert(before.contains_key(k) && !m@.contains_key(k));
                    assert forall|r: u64, j: u64|
                        before.contains_key(r) && !m@.contains_key(r) && m@.contains_key(j) implies r < j by {
                        if prev.contains_key(r) {
                            assert(r == k);
                            assert(prev.contains_key(j));
                        }
                    }
                    assert forall|i: int| 0 <= i < prev_rel.len() implies prev_rel[i].0 < k by {
                        let j = prev_rel[i].0;
                        assert(before.contains_key(j) && !prev.contains_key(j));
                    }
                }
                let took = signal(tx).is_ok();
                released.push((k, took));
                proof {
                    let rel = released@;
                    assert(rel[prev_rel.len() as int] == (k, took));
                    assert forall|j: u64|
                        (before.contains_key(j) && !m@.contains_key(j)) <==> exists|i: int|
                            0 <= i < rel.len() && #[trigger] rel[i].0 == j by {
                        if before.contains_key(j) && !m@.contains_key(j) {
                            if j == k {
                                assert(rel[prev_rel.len() as int].0 == j);
                            } else {
                                assert(before.contains_key(j) && !prev.contains_key(j));
                                let i = choose|i: int| 0 <= i < prev_rel.len() && #[trigger] prev_rel[i].0 == j;
                                assert(rel[i].0 == j);
                            }
                        }
                        if exists|i: int| 0 <= i < rel.len() && #[trigger] rel[i].0 == j {
                            let i = choose|i: int| 0 <= i < rel.len() && #[trigger] rel[i].0 == j;
                            if i < prev_rel.len() {
                                assert(prev_rel[i].0 == j);
                            }
                        }
                    }
                }
                if took {
                    break;
                }
            },
        }
    }
    released
}

} // verus!
