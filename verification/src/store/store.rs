//! The key/value store: string and list values under text keys, with lazy
//! expiry, and the queues of clients blocked until a list under a key
//! receives elements.

use vstd::prelude::*;
use std::collections::BTreeMap;
use std::collections::VecDeque;
use tokio::sync::oneshot::{Receiver, Sender};
use super::keyed::{
    find_key, keyed, keys_distinct, lemma_keyed_at, lemma_keyed_push, lemma_keyed_remove,
    lemma_keyed_update,
};
use super::signal::{open_channel, release_front, released_front, released_in_order};
use super::types::{Entry, EntryView, StoreError, Value, ValueView, now_ms, texts};

verus! {

broadcast use vstd::laws_cmp::group_laws_cmp;

/// The waiters queued under a key, or none.
pub open spec fn queue_of(w: Map<Seq<char>, Map<u64, Sender<()>>>, key: Seq<char>) -> Map<
    u64,
    Sender<()>,
> {
    if w.contains_key(key) {
        w[key]
    } else {
        Map::empty()
    }
}

/// The waiters after a push to `key`: the queue of `key` released its
/// front, and every other queue is as it was.
pub open spec fn woke_first(
    before: Map<Seq<char>, Map<u64, Sender<()>>>,
    after: Map<Seq<char>, Map<u64, Sender<()>>>,
    key: Seq<char>,
) -> bool {
    &&& after.dom() == before.dom()
    &&& forall|k: Seq<char>| #[trigger] before.contains_key(k) && k != key ==> after[k] == before[k]
    &&& before.contains_key(key) ==> released_front(before[key], after[key])
}

/// The queues after the request `id` was taken off those of `keys`.
pub open spec fn unsubscribed(
    w: Map<Seq<char>, Map<u64, Sender<()>>>,
    id: u64,
    keys: Seq<Seq<char>>,
) -> Map<Seq<char>, Map<u64, Sender<()>>> {
    Map::new(
        |k: Seq<char>| w.contains_key(k),
        |k: Seq<char>|
            if keys.contains(k) {
                w[k].remove(id)
            } else {
                w[k]
            },
    )
}

/// The entry under `key`, which has an expiry, was removed.
pub open spec fn expired_away(
    before: Map<Seq<char>, EntryView>,
    after: Map<Seq<char>, EntryView>,
    key: Seq<char>,
) -> bool {
    &&& before.contains_key(key)
    &&& before[key].can_expire()
    &&& after == before.remove(key)
}

/// The list under `key`, as a read sees it: empty when the key is absent,
/// `WrongType` when it holds a string.
pub open spec fn read_list(m: Map<Seq<char>, EntryView>, key: Seq<char>) -> Result<
    Seq<Seq<char>>,
    StoreError,
> {
    if !m.contains_key(key) {
        Ok(Seq::empty())
    } else {
        match m[key].value {
            ValueView::Text(_) => Err(StoreError::WrongType),
            ValueView::Items(l) => Ok(l),
        }
    }
}

/// The position that an index of a list of length `len` stands for:
/// a negative index counts from the end and is clamped at the first
/// element; a non-negative one is clamped at the last.
pub open spec fn normalized(idx: int, len: int) -> int {
    if idx < 0 {
        if -idx > len {
            0
        } else {
            len + idx
        }
    } else if idx < len - 1 {
        idx
    } else {
        len - 1
    }
}

/// The elements of `l` from `start` to `stop`, both included, after
/// normalizing the two indexes.
pub open spec fn range_of(l: Seq<Seq<char>>, start: int, stop: int) -> Seq<Seq<char>> {
    if start > 0 && start > l.len() {
        Seq::empty()
    } else {
        let b = normalized(start, l.len() as int);
        let e = normalized(stop, l.len() as int);
        if b > e {
            Seq::empty()
        } else {
            l.subrange(b, e + 1)
        }
    }
}

/// The elements from `start` to `stop` of the list under `key` (see
/// [`range_of`]): none when the key is absent, `WrongType` when it holds a
/// string.
pub open spec fn read_range(m: Map<Seq<char>, EntryView>, key: Seq<char>, start: int, stop: int) -> Result<
    Seq<Seq<char>>,
    StoreError,
> {
    if !m.contains_key(key) {
        Ok(Seq::empty())
    } else {
        match m[key].value {
            ValueView::Text(_) => Err(StoreError::WrongType),
            ValueView::Items(l) => Ok(range_of(l, start, stop)),
        }
    }
}

/// The list under `key` is not empty, or `start` is positive (a range
/// read of an empty list from a non-positive start is refused).
pub open spec fn range_readable(m: Map<Seq<char>, EntryView>, key: Seq<char>, start: int) -> bool {
    m.contains_key(key) ==> (m[key].value matches ValueView::Items(l) && l.len() == 0 ==> start > 0)
}

/// A range read of `key` with the clock at `now` is not refused: the entry
/// expires at `now`, or the read of it is [`range_readable`].
pub open spec fn range_readable_at(m: Map<Seq<char>, EntryView>, key: Seq<char>, start: int, now: Option<u64>) -> bool {
    expiry_outcome(m, key, now).0 == Ok::<bool, StoreError>(false) ==> range_readable(m, key, start)
}

/// The texts of the strings that a read gave, or its error.
pub open spec fn texts_read(r: Result<Vec<String>, StoreError>) -> Result<Seq<Seq<char>>, StoreError> {
    match r {
        Ok(v) => Ok(texts(v@)),
        Err(e) => Err(e),
    }
}

/// The outcome of a read of `key` after its lazy expiry, where `read` is
/// what the read gives on the entries as they stand and `gone` what it
/// gives when the entry expired: the clock may fail (`InternalError`,
/// nothing changed, only for a present key); the entry may have expired and
/// been removed; or the read saw the entries unchanged.
pub open spec fn lazy_read<T>(
    before: Map<Seq<char>, EntryView>,
    after: Map<Seq<char>, EntryView>,
    key: Seq<char>,
    res: Result<T, StoreError>,
    read: Result<T, StoreError>,
    gone: T,
) -> bool {
    match res {
        Err(e) => {
            &&& after == before
            &&& before.contains_key(key)
            &&& (e == StoreError::InternalError || read == Err::<T, StoreError>(e))
        },
        Ok(v) => {
            ||| (expired_away(before, after, key) && v == gone)
            ||| (after == before && read == Ok::<T, StoreError>(v))
        },
    }
}

/// The expiry of the entry under `key`, or none when the key is absent.
pub open spec fn expiry_of(m: Map<Seq<char>, EntryView>, key: Seq<char>) -> Option<u64> {
    if m.contains_key(key) {
        m[key].expiry
    } else {
        None
    }
}

/// Takes the first `n` elements (all of them, when there are fewer) off the
/// list under `key`: the elements taken, and the entries after. None are
/// taken when the key is absent; `WrongType` when it holds a string.
pub open spec fn pop_front_of(m: Map<Seq<char>, EntryView>, key: Seq<char>, n: int) -> Result<
    (Seq<Seq<char>>, Map<Seq<char>, EntryView>),
    StoreError,
> {
    if !m.contains_key(key) {
        Ok((Seq::empty(), m))
    } else {
        match m[key].value {
            ValueView::Text(_) => Err(StoreError::WrongType),
            ValueView::Items(l) => {
                let c = if n < l.len() {
                    n
                } else {
                    l.len() as int
                };
                Ok(
                    (
                        l.take(c),
                        m.insert(key, EntryView { value: ValueView::Items(l.skip(c)), expiry: m[key].expiry }),
                    ),
                )
            },
        }
    }
}

/// Takes the first `n` strings off the front of `l`.
fn take_front(l: &mut VecDeque<String>, n: usize) -> (res: Vec<String>)
    requires
        n <= old(l)@.len(),
    ensures
        res@ == old(l)@.take(n as int),
        final(l)@ == old(l)@.skip(n as int),
{
    let ghost start = l@;
    let mut res: Vec<String> = Vec::new();
    let mut j: usize = 0;
    while j < n
        invariant
            0 <= j <= n <= start.len(),
            res@ == start.take(j as int),
            l@ == start.skip(j as int),
        decreases n - j,
    {
        match l.pop_front() {
            Some(x) => {
                res.push(x);
            },
            None => {},
        }
        j = j + 1;
        assert(res@ =~= start.take(j as int));
        assert(l@ =~= start.skip(j as int));
    }
    res
}

/// Appends the strings of `elements` to the back of `l`, in order.
fn append_back(l: &mut VecDeque<String>, elements: VecDeque<String>)
    ensures
        final(l)@ == old(l)@ + elements@,
{
    let ghost start = l@;
    let ghost added = elements@;
    let mut rest = elements;
    while rest.len() > 0
        invariant
            added.len() >= rest@.len(),
            l@ == start + added.take(added.len() - rest@.len()),
            rest@ == added.skip(added.len() - rest@.len()),
        decreases rest@.len(),
    {
        let ghost k = added.len() - rest@.len();
        match rest.pop_front() {
            Some(x) => {
                assert(x == added[k]);
                l.push_back(x);
                assert(added.take(k + 1) =~= added.take(k).push(x));
            },
            None => {},
        }
        assert(rest@ =~= added.skip(added.len() - rest@.len()));
        assert(l@ =~= start + added.take(added.len() - rest@.len()));
    }
    assert(added.take(added.len() as int) =~= added);
}

/// Pushes the strings of `elements`, in order, onto the front of `l`; they
/// end up there in reverse order.
fn prepend_each(l: &mut VecDeque<String>, elements: VecDeque<String>)
    ensures
        final(l)@ == elements@.reverse() + old(l)@,
{
    let ghost start = l@;
    let ghost added = elements@;
    let mut rest = elements;
    while rest.len() > 0
        invariant
            added.len() >= rest@.len(),
            l@ == added.take(added.len() - rest@.len()).reverse() + start,
            rest@ == added.skip(added.len() - rest@.len()),
        decreases rest@.len(),
    {
        let ghost k = added.len() - rest@.len();
        match rest.pop_front() {
            Some(x) => {
                assert(x == added[k]);
                l.push_front(x);
                assert(added.take(k + 1).reverse() =~= seq![x] + added.take(k).reverse());
            },
            None => {},
        }
        assert(rest@ =~= added.skip(added.len() - rest@.len()));
        assert(l@ =~= added.take(added.len() - rest@.len()).reverse() + start);
    }
    assert(added.take(added.len() as int) =~= added);
}

/// An index into a list, normalized (see [`normalized`]).
pub fn normalize_idx(idx: isize, len: usize) -> (res: usize)
    requires
        idx >= 0 ==> len > 0,
    ensures
        res == normalized(idx as int, len as int),
{
    if idx < 0 {
        let abs: usize = if idx == isize::MIN {
            (isize::MAX as usize) + 1
        } else {
            (-idx) as usize
        };
        if abs > len {
            0
        } else {
            len - abs
        }
    } else {
        let i = idx as usize;
        if i < len - 1 {
            i
        } else {
            len - 1
        }
    }
}

/// What the expiry of `key` at Unix time `now` (in milliseconds) tells and
/// leaves: a key that is absent is left alone; a failed clock (`None`)
/// gives `InternalError`; an entry expired at `now` is removed.
pub open spec fn expiry_outcome(m: Map<Seq<char>, EntryView>, key: Seq<char>, now: Option<u64>) -> (
    Result<bool, StoreError>,
    Map<Seq<char>, EntryView>,
) {
    if !m.contains_key(key) {
        (Ok(false), m)
    } else {
        match now {
            None => (Err(StoreError::InternalError), m),
            Some(t) => if m[key].expired_at(t) {
                (Ok(true), m.remove(key))
            } else {
                (Ok(false), m)
            },
        }
    }
}

/// The outcome of a read of `key` after its expiry at `now`, where `read`
/// is what the read gives on the entries as they stand and `gone` what it
/// gives when the entry expired.
pub open spec fn read_at<T>(
    before: Map<Seq<char>, EntryView>,
    after: Map<Seq<char>, EntryView>,
    key: Seq<char>,
    now: Option<u64>,
    res: Result<T, StoreError>,
    read: Result<T, StoreError>,
    gone: T,
) -> bool {
    match expiry_outcome(before, key, now) {
        (Err(e), _) => after == before && res == Err::<T, StoreError>(e),
        (Ok(true), m) => after == m && res == Ok::<T, StoreError>(gone),
        (Ok(false), _) => after == before && res == read,
    }
}

/// Whatever the clock read, a read at that time is one of the outcomes of
/// [`lazy_read`].
pub proof fn lemma_read_at_is_lazy<T>(
    before: Map<Seq<char>, EntryView>,
    after: Map<Seq<char>, EntryView>,
    key: Seq<char>,
    now: Option<u64>,
    res: Result<T, StoreError>,
    read: Result<T, StoreError>,
    gone: T,
)
    requires
        read_at(before, after, key, now, res, read, gone),
        read is Err ==> before.contains_key(key),
    ensures
        lazy_read(before, after, key, res, read, gone),
{
}

/// An in-memory key/value store.
pub struct Store {
    data: Vec<(String, Entry)>,
    waiters: Vec<(String, BTreeMap<u64, Sender<()>>)>,
    counter: u64,
    /// The waiters that the last push released, in order, each with
    /// whether it took the signal.
    released: Ghost<Seq<(u64, bool)>>,
    /// The last reading of the wall clock.
    clock: Ghost<Option<u64>>,
}

impl Store {
    /// The entries, by key.
    pub closed spec fn entries(&self) -> Map<Seq<char>, EntryView> {
        keyed(self.data@).map_values(|e: Entry| e@)
    }

    /// The queues of blocked clients, by key; each maps a request's id to
    /// the sender that wakes it.
    pub closed spec fn waiting(&self) -> Map<Seq<char>, Map<u64, Sender<()>>> {
        keyed(self.waiters@).map_values(|m: BTreeMap<u64, Sender<()>>| m@)
    }

    /// The waiters that the last push to a key released from its queue, in
    /// order, each with whether it took the signal.
    pub closed spec fn last_release(&self) -> Seq<(u64, bool)> {
        self.released@
    }

    /// The reading of the wall clock (Unix time in milliseconds, or `None`
    /// when the clock failed) that the last operation reading it took.
    pub closed spec fn clock(&self) -> Option<u64> {
        self.clock@
    }

    /// The last id handed out by [`Store::count`].
    pub closed spec fn ticks(&self) -> u64 {
        self.counter
    }

    /// The store's invariant: no key occurs twice.
    pub closed spec fn wf(&self) -> bool {
        keys_distinct(self.data@) && keys_distinct(self.waiters@)
    }

    /// An empty store.
    pub fn new() -> (res: Store)
        ensures
            res.wf(),
            res.entries() == Map::<Seq<char>, EntryView>::empty(),
            res.waiting() == Map::<Seq<char>, Map<u64, Sender<()>>>::empty(),
            res.ticks() == 0,
    {
        let res = Store { data: Vec::new(), waiters: Vec::new(), counter: 0, released: Ghost(Seq::empty()), clock: Ghost(None) };
        assert(res.entries() =~= Map::<Seq<char>, EntryView>::empty());
        assert(res.waiting() =~= Map::<Seq<char>, Map<u64, Sender<()>>>::empty());
        res
    }

    /// The last id handed out by [`Store::count`] (0 before the first).
    pub fn last_id(&self) -> (res: u64)
        ensures
            res == self.ticks(),
    {
        self.counter
    }

    /// Advances the counter and hands out its new value, an id for one
    /// batch of work.
    pub fn count(&mut self) -> (res: u64)
        requires
            old(self).ticks() < u64::MAX,
        ensures
            res == old(self).ticks() + 1,
            final(self).ticks() == res,
            final(self).clock() == old(self).clock(),
            final(self).wf() == old(self).wf(),
            final(self).entries() == old(self).entries(),
            final(self).waiting() == old(self).waiting(),
    {
        self.counter = self.counter + 1;
        self.counter
    }

    /// Binds `key` to the string `value`, expiring at Unix time
    /// `expiry_ms` (in milliseconds) if given; gives back the entry that
    /// the key held before.
    pub fn set(&mut self, key: String, value: String, expiry_ms: Option<u64>) -> (res: Option<
        Entry,
    >)
        requires
            old(self).wf(),
        ensures
            final(self).wf(),
            final(self).entries() == old(self).entries().insert(
                key@,
                EntryView { value: ValueView::Text(value@), expiry: expiry_ms },
            ),
            final(self).waiting() == old(self).waiting(),
            final(self).ticks() == old(self).ticks(),
            final(self).clock() == old(self).clock(),
            match res {
                Some(e) => old(self).entries().contains_key(key@) && e@ == old(self).entries()[key@],
                None => !old(self).entries().contains_key(key@),
            },
    {
        let mut entry = Entry::new(Value::String(value));
        if let Some(exp) = expiry_ms {
            entry.with_expiry(exp);
        }
        self.insert_entry(key, entry)
    }

    /// Binds `key` to `entry`; gives back the entry that the key held before.
    fn insert_entry(&mut self, key: String, entry: Entry) -> (res: Option<Entry>)
        requires
            old(self).wf(),
        ensures
            final(self).wf(),
            final(self).entries() == old(self).entries().insert(key@, entry@),
            final(self).waiting() == old(self).waiting(),
            final(self).ticks() == old(self).ticks(),
            final(self).clock() == old(self).clock(),
            match res {
                Some(e) => old(self).entries().contains_key(key@) && e@ == old(self).entries()[key@],
                None => !old(self).entries().contains_key(key@),
            },
    {
        let ghost before = self.data@;
        let ghost e_view = entry@;
        match find_key(&self.data, key.as_str()) {
            Some(i) => {
                proof {
                    lemma_keyed_at(before, i as int);
                    lemma_keyed_update(before, i as int, key, entry);
                }
                let mut pair = (key, entry);
                std::mem::swap(&mut self.data[i], &mut pair);
                assert(self.data@ == before.update(i as int, (key, entry)));
                assert(self.entries() =~= keyed(before).map_values(|e: Entry| e@).insert(
                    key@,
                    e_view,
                ));
                Some(pair.1)
            },
            None => {
                proof {
                    lemma_keyed_push(before, key, entry);
                }
                self.data.push((key, entry));
                assert(self.entries() =~= keyed(before).map_values(|e: Entry| e@).insert(
                    key@,
                    e_view,
                ));
                None
            },
        }
    }

    /// The entry under `key` and its position, when the key is present.
    proof fn lemma_entry_at(&self, i: int)
        requires
            self.wf(),
            0 <= i < self.data@.len(),
        ensures
            self.entries().contains_key(self.data@[i].0@),
            self.entries()[self.data@[i].0@] == self.data@[i].1@,
    {
        lemma_keyed_at(self.data@, i);
    }

    /// Removes the entry under `key` when it has expired at Unix time `now`
    /// (in milliseconds), `None` standing for a clock that failed; tells
    /// whether it did (see [`expiry_outcome`]).
    fn expire_at(&mut self, key: &str, now: Option<u64>) -> (res: Result<bool, StoreError>)
        requires
            old(self).wf(),
        ensures
            final(self).wf(),
            final(self).waiting() == old(self).waiting(),
            final(self).ticks() == old(self).ticks(),
            final(self).clock() == old(self).clock(),
            (res, final(self).entries()) == expiry_outcome(old(self).entries(), key@, now),
    {
        match find_key(&self.data, key) {
            Some(i) => {
                proof {
                    self.lemma_entry_at(i as int);
                }
                match now {
                    None => Err(StoreError::InternalError),
                    Some(t) => {
                        if self.data[i].1.is_expired_at(t) {
                            self.delete(key);
                            Ok(true)
                        } else {
                            Ok(false)
                        }
                    },
                }
            },
            None => Ok(false),
        }
    }

    /// Reads the wall clock, as Unix time in milliseconds (`None` when it
    /// reads a time before the Unix epoch), and keeps the reading.
    pub(crate) fn read_clock(&mut self) -> (now: Option<u64>)
        requires
            old(self).wf(),
        ensures
            final(self).wf(),
            final(self).entries() == old(self).entries(),
            final(self).waiting() == old(self).waiting(),
            final(self).ticks() == old(self).ticks(),
            final(self).clock() == now,
    {
        let now = now_ms();
        self.clock = Ghost(now);
        now
    }

    /// The entry under `key`, after its expiry at Unix time `now` (see
    /// [`expiry_outcome`]).
    pub fn get_at(&mut self, key: &str, now: Option<u64>) -> (res: Result<Option<&Entry>, StoreError>)
        requires
            old(self).wf(),
        ensures
            final(self).wf(),
            final(self).waiting() == old(self).waiting(),
            final(self).ticks() == old(self).ticks(),
            final(self).clock() == old(self).clock(),
            read_at(
                old(self).entries(),
                final(self).entries(),
                key@,
                now,
                match res {
                    Ok(Some(e)) => Ok(Some(e@)),
                    Ok(None) => Ok(None),
                    Err(e) => Err(e),
                },
                Ok(old(self).entries().get(key@)),
                None,
            ),
    {
        match self.expire_at(key, now) {
            Err(e) => {
                return Err(e);
            },
            Ok(true) => {
                return Ok(None);
            },
            Ok(false) => {},
        }
        match find_key(&self.data, key) {
            Some(i) => {
                proof {
                    self.lemma_entry_at(i as int);
                }
                Ok(Some(&self.data[i].1))
            },
            None => Ok(None),
        }
    }

    /// The entry under `key`, after removing it if it has expired by the
    /// wall clock. Fails with `InternalError` when the clock does.
    pub fn get(&mut self, key: &str) -> (res: Result<Option<&Entry>, StoreError>)
        requires
            old(self).wf(),
        ensures
            final(self).wf(),
            final(self).waiting() == old(self).waiting(),
            final(self).ticks() == old(self).ticks(),
            read_at(
                old(self).entries(),
                final(self).entries(),
                key@,
                final(self).clock(),
                match res {
                    Ok(Some(e)) => Ok(Some(e@)),
                    Ok(None) => Ok(None),
                    Err(e) => Err(e),
                },
                Ok(old(self).entries().get(key@)),
                None,
            ),
            match res {
                Err(e) => {
                    &&& e == StoreError::InternalError
                    &&& old(self).entries().contains_key(key@)
                    &&& final(self).entries() == old(self).entries()
                },
                Ok(Some(e)) => {
                    &&& final(self).entries() == old(self).entries()
                    &&& old(self).entries().contains_key(key@)
                    &&& e@ == old(self).entries()[key@]
                },
                Ok(None) => {
                    ||| expired_away(old(self).entries(), final(self).entries(), key@)
                    ||| (final(self).entries() == old(self).entries() && !old(self).entries().contains_key(key@))
                },
            },
            !old(self).entries().contains_key(key@) ==> res matches Ok(None),
    {
        let now = self.read_clock();
        self.get_at(key, now)
    }

    /// The length of the list under `key` after its expiry at Unix time
    /// `now` (0 when the key is absent or expired); `WrongType` when the key
    /// holds a string.
    pub fn llen_at(&mut self, key: &str, now: Option<u64>) -> (res: Result<usize, StoreError>)
        requires
            old(self).wf(),
        ensures
            final(self).wf(),
            final(self).waiting() == old(self).waiting(),
            final(self).ticks() == old(self).ticks(),
            final(self).clock() == old(self).clock(),
            read_at(
                old(self).entries(),
                final(self).entries(),
                key@,
                now,
                match res {
                    Ok(n) => Ok(n as nat),
                    Err(e) => Err(e),
                },
                match read_list(old(self).entries(), key@) {
                    Ok(l) => Ok(l.len()),
                    Err(e) => Err(e),
                },
                0,
            ),
    {
        match self.expire_at(key, now) {
            Err(e) => {
                return Err(e);
            },
            Ok(true) => {
                return Ok(0);
            },
            Ok(false) => {},
        }
        match find_key(&self.data, key) {
            Some(i) => {
                proof {
                    self.lemma_entry_at(i as int);
                }
                match &self.data[i].1.value {
                    Value::List(l) => Ok(l.len()),
                    Value::String(_) => Err(StoreError::WrongType),
                }
            },
            None => Ok(0),
        }
    }

    /// The length of the list under `key` (0 when the key is absent or has
    /// expired by the wall clock). Fails with `WrongType` when the key holds
    /// a string, `InternalError` when the clock fails.
    pub fn llen(&mut self, key: &str) -> (res: Result<usize, StoreError>)
        requires
            old(self).wf(),
        ensures
            final(self).wf(),
            final(self).waiting() == old(self).waiting(),
            final(self).ticks() == old(self).ticks(),
            read_at(
                old(self).entries(),
                final(self).entries(),
                key@,
                final(self).clock(),
                match res {
                    Ok(n) => Ok(n as nat),
                    Err(e) => Err(e),
                },
                match read_list(old(self).entries(), key@) {
                    Ok(l) => Ok(l.len()),
                    Err(e) => Err(e),
                },
                0,
            ),
            lazy_read(
                old(self).entries(),
                final(self).entries(),
                key@,
                match res {
                    Ok(n) => Ok(n as nat),
                    Err(e) => Err(e),
                },
                match read_list(old(self).entries(), key@) {
                    Ok(l) => Ok(l.len()),
                    Err(e) => Err(e),
                },
                0,
            ),
    {
        let now = self.read_clock();
        let ghost before = self.entries();
        let res = self.llen_at(key, now);
        proof {
            lemma_read_at_is_lazy(
                before,
                self.entries(),
                key@,
                now,
                match res {
                    Ok(n) => Ok(n as nat),
                    Err(e) => Err(e),
                },
                match read_list(before, key@) {
                    Ok(l) => Ok(l.len()),
                    Err(e) => Err(e),
                },
                0,
            );
        }
        res
    }

    /// The elements of the list under `key` from `start` to `stop`, both
    /// included (see [`range_of`]), after its expiry at Unix time `now`;
    /// none when the key is absent or expired; `WrongType` when the key
    /// holds a string.
    pub fn lrange_at(&mut self, key: &str, start: isize, stop: isize, now: Option<u64>) -> (res: Result<
        Vec<String>,
        StoreError,
    >)
        requires
            old(self).wf(),
            range_readable_at(old(self).entries(), key@, start as int, now),
        ensures
            final(self).wf(),
            final(self).waiting() == old(self).waiting(),
            final(self).ticks() == old(self).ticks(),
            final(self).clock() == old(self).clock(),
            read_at(
                old(self).entries(),
                final(self).entries(),
                key@,
                now,
                texts_read(res),
                read_range(old(self).entries(), key@, start as int, stop as int),
                Seq::empty(),
            ),
    {
        match self.expire_at(key, now) {
            Err(e) => {
                return Err(e);
            },
            Ok(true) => {
                let none: Vec<String> = Vec::new();
                assert(texts(none@) =~= Seq::empty());
                return Ok(none);
            },
            Ok(false) => {},
        }
        match find_key(&self.data, key) {
            Some(i) => {
                proof {
                    self.lemma_entry_at(i as int);
                }
                match &self.data[i].1.value {
                    Value::List(l) => {
                        let ghost items = texts(l@);
                        assert(self.entries()[key@].value == ValueView::Items(items));
                        let len = l.len();
                        let mut res: Vec<String> = Vec::new();
                        if start > 0 && start as usize > len {
                            assert(texts(res@) =~= range_of(items, start as int, stop as int));
                            return Ok(res);
                        }
                        let norm_stop = normalize_idx(stop, len);
                        let norm_start = normalize_idx(start, len);
                        if norm_start > norm_stop {
                            assert(texts(res@) =~= range_of(items, start as int, stop as int));
                            return Ok(res);
                        }
                        let mut j = norm_start;
                        while j <= norm_stop
                            invariant
                                norm_start <= j <= norm_stop + 1,
                                norm_stop < len,
                                len == l@.len(),
                                items == texts(l@),
                                texts(res@) =~= items.subrange(norm_start as int, j as int),
                            decreases norm_stop + 1 - j,
                        {
                            let ghost prev = res@;
                            res.push(l[j].clone());
                            proof {
                                assert(texts(res@) =~= texts(prev).push(items[j as int]));
                                assert(items.subrange(norm_start as int, j + 1) =~= items.subrange(
                                    norm_start as int,
                                    j as int,
                                ).push(items[j as int]));
                            }
                            j = j + 1;
                        }
                        assert(texts(res@) == range_of(items, start as int, stop as int));
                        Ok(res)
                    },
                    Value::String(_) => Err(StoreError::WrongType),
                }
            },
            None => {
                let none: Vec<String> = Vec::new();
                assert(texts(none@) =~= Seq::empty());
                Ok(none)
            },
        }
    }

    /// The elements of the list under `key` from `start` to `stop`, both
    /// included (see [`range_of`]); none when the key is absent or has
    /// expired by the wall clock. Fails with `WrongType` when the key holds
    /// a string, `InternalError` when the clock fails.
    pub fn lrange(&mut self, key: &str, start: isize, stop: isize) -> (res: Result<
        Vec<String>,
        StoreError,
    >)
        requires
            old(self).wf(),
            range_readable(old(self).entries(), key@, start as int),
        ensures
            final(self).wf(),
            final(self).waiting() == old(self).waiting(),
            final(self).ticks() == old(self).ticks(),
            read_at(
                old(self).entries(),
                final(self).entries(),
                key@,
                final(self).clock(),
                texts_read(res),
                read_range(old(self).entries(), key@, start as int, stop as int),
                Seq::empty(),
            ),
            lazy_read(
                old(self).entries(),
                final(self).entries(),
                key@,
                texts_read(res),
                read_range(old(self).entries(), key@, start as int, stop as int),
                Seq::empty(),
            ),
    {
        let now = self.read_clock();
        let ghost before = self.entries();
        let res = self.lrange_at(key, start, stop, now);
        proof {
            lemma_read_at_is_lazy(
                before,
                self.entries(),
                key@,
                now,
                texts_read(res),
                read_range(before, key@, start as int, stop as int),
                Seq::empty(),
            );
        }
        res
    }

    /// Takes up to `num_elements` strings off the front of the list under
    /// `key` (all of them when there are fewer; the emptied list stays),
    /// after its expiry at Unix time `now` (see [`pop_front_of`]); none when
    /// the key is absent or expired; `WrongType` when the key holds a
    /// string.
    pub fn lpop_at(&mut self, key: &str, num_elements: usize, now: Option<u64>) -> (res: Result<
        Vec<String>,
        StoreError,
    >)
        requires
            old(self).wf(),
        ensures
            final(self).wf(),
            final(self).waiting() == old(self).waiting(),
            final(self).ticks() == old(self).ticks(),
            final(self).clock() == old(self).clock(),
            match expiry_outcome(old(self).entries(), key@, now) {
                (Err(e), _) => res == Err::<Vec<String>, StoreError>(e) && final(self).entries()
                    == old(self).entries(),
                (Ok(true), after) => res matches Ok(v) && v@.len() == 0 && final(self).entries()
                    == after,
                (Ok(false), _) => match pop_front_of(old(self).entries(), key@, num_elements as int) {
                    Err(e) => res == Err::<Vec<String>, StoreError>(e) && final(self).entries()
                        == old(self).entries(),
                    Ok((taken, after)) => res matches Ok(v) && texts(v@) == taken
                        && final(self).entries() == after,
                },
            },
    {
        match self.expire_at(key, now) {
            Err(e) => {
                return Err(e);
            },
            Ok(true) => {
                return Ok(Vec::new());
            },
            Ok(false) => {},
        }
        match find_key(&self.data, key) {
            Some(i) => {
                proof {
                    self.lemma_entry_at(i as int);
                }
                let ghost before = self.data@;
                let mut slot = (String::new(), Entry::new(Value::String(String::new())));
                std::mem::swap(&mut self.data[i], &mut slot);
                let res = match &mut slot.1.value {
                    Value::List(l) => {
                        let len = l.len();
                        let c = if num_elements >= len {
                            len
                        } else {
                            num_elements
                        };
                        let ghost whole = l@;
                        let taken = take_front(l, c);
                        proof {
                            assert(texts(taken@) =~= texts(whole).take(c as int));
                            assert(texts(l@) =~= texts(whole).skip(c as int));
                        }
                        Ok(taken)
                    },
                    Value::String(_) => Err(StoreError::WrongType),
                };
                let ghost fresh = slot;
                std::mem::swap(&mut self.data[i], &mut slot);
                proof {
                    assert(self.data@ =~= before.update(i as int, fresh));
                    lemma_keyed_update(before, i as int, fresh.0, fresh.1);
                    assert(self.entries() =~= keyed(before).map_values(|e: Entry| e@).insert(
                        key@,
                        fresh.1@,
                    ));
                    if res is Err {
                        assert(fresh == before[i as int]);
                        assert(self.data@ =~= before);
                    }
                }
                res
            },
            None => {
                let none: Vec<String> = Vec::new();
                assert(texts(none@) =~= Seq::empty());
                Ok(none)
            },
        }
    }

    /// Takes up to `num_elements` strings off the front of the list under
    /// `key` (all of them when there are fewer; the emptied list stays);
    /// none when the key is absent or has expired by the wall clock. Fails
    /// with `WrongType` when the key holds a string, `InternalError` when
    /// the clock fails.
    pub fn lpop(&mut self, key: &str, num_elements: usize) -> (res: Result<Vec<String>, StoreError>)
        requires
            old(self).wf(),
        ensures
            final(self).wf(),
            final(self).waiting() == old(self).waiting(),
            final(self).ticks() == old(self).ticks(),
            match expiry_outcome(old(self).entries(), key@, final(self).clock()) {
                (Err(e), _) => res == Err::<Vec<String>, StoreError>(e) && final(self).entries()
                    == old(self).entries(),
                (Ok(true), after) => res matches Ok(v) && v@.len() == 0 && final(self).entries()
                    == after,
                (Ok(false), _) => match pop_front_of(old(self).entries(), key@, num_elements as int) {
                    Err(e) => res == Err::<Vec<String>, StoreError>(e) && final(self).entries()
                        == old(self).entries(),
                    Ok((taken, after)) => res matches Ok(v) && texts(v@) == taken
                        && final(self).entries() == after,
                },
            },
            match res {
                Err(e) => {
                    &&& final(self).entries() == old(self).entries()
                    &&& old(self).entries().contains_key(key@)
                    &&& (e == StoreError::InternalError || pop_front_of(
                        old(self).entries(),
                        key@,
                        num_elements as int,
                    ) == Err::<(Seq<Seq<char>>, Map<Seq<char>, EntryView>), StoreError>(e))
                },
                Ok(v) => {
                    ||| (expired_away(old(self).entries(), final(self).entries(), key@)
                        && v@.len() == 0)
                    ||| pop_front_of(old(self).entries(), key@, num_elements as int) == Ok::<
                        (Seq<Seq<char>>, Map<Seq<char>, EntryView>),
                        StoreError,
                    >((texts(v@), final(self).entries()))
                },
            },
    {
        let now = self.read_clock();
        self.lpop_at(key, num_elements, now)
    }

    /// Wakes the waiters on `key`: releases them from the front of its
    /// queue until one takes the signal.
    fn wake_first(&mut self, key: &str)
        requires
            old(self).wf(),
        ensures
            final(self).wf(),
            final(self).entries() == old(self).entries(),
            final(self).ticks() == old(self).ticks(),
            final(self).clock() == old(self).clock(),
            woke_first(old(self).waiting(), final(self).waiting(), key@),
            released_in_order(
                queue_of(old(self).waiting(), key@),
                queue_of(final(self).waiting(), key@),
                final(self).last_release(),
            ),
    {
        let ghost before = self.waiters@;
        match find_key(&self.waiters, key) {
            Some(i) => {
                proof {
                    lemma_keyed_at(before, i as int);
                }
                let mut slot = (String::new(), BTreeMap::new());
                std::mem::swap(&mut self.waiters[i], &mut slot);
                let released = release_front(&mut slot.1);
                let ghost fresh = slot;
                std::mem::swap(&mut self.waiters[i], &mut slot);
                self.released = Ghost(released@);
                proof {
                    assert(self.waiters@ =~= before.update(i as int, fresh));
                    lemma_keyed_update(before, i as int, fresh.0, fresh.1);
                    assert(self.waiting() =~= keyed(before).map_values(
                        |m: BTreeMap<u64, Sender<()>>| m@,
                    ).insert(key@, fresh.1@));
                    assert(old(self).waiting()[key@] == before[i as int].1@);
                    assert(self.waiting().dom() =~= old(self).waiting().dom());
                }
            },
            None => {
                self.released = Ghost(Seq::empty());
                proof {
                    assert(!self.waiting().contains_key(key@));
                }
            },
        }
    }

    /// Appends `elements` to the back of the list under `key`, creating the
    /// list (without expiry) when the key is absent, and wakes the first
    /// waiter on `key`; gives the new length. Fails with `KeyTaken`, and
    /// changes nothing, when the key holds a string.
    pub fn rpush(&mut self, key: String, elements: VecDeque<String>) -> (res: Result<
        usize,
        StoreError,
    >)
        requires
            old(self).wf(),
            read_list(old(self).entries(), key@) matches Ok(l) ==> l.len() + elements@.len()
                <= usize::MAX,
        ensures
            final(self).wf(),
            final(self).ticks() == old(self).ticks(),
            final(self).clock() == old(self).clock(),
            match read_list(old(self).entries(), key@) {
                Err(_) => {
                    &&& res == Err::<usize, StoreError>(StoreError::KeyTaken)
                    &&& final(self).entries() == old(self).entries()
                    &&& final(self).waiting() == old(self).waiting()
                },
                Ok(l) => {
                    &&& res matches Ok(n) && n == l.len() + elements@.len()
                    &&& final(self).entries() == old(self).entries().insert(
                        key@,
                        EntryView {
                            value: ValueView::Items(l + texts(elements@)),
                            expiry: expiry_of(old(self).entries(), key@),
                        },
                    )
                    &&& woke_first(old(self).waiting(), final(self).waiting(), key@)
                    &&& released_in_order(
                        queue_of(old(self).waiting(), key@),
                        queue_of(final(self).waiting(), key@),
                        final(self).last_release(),
                    )
                },
            },
    {
        let res = self.push_list(key.as_str(), elements, false);
        match res {
            Ok(n) => {
                self.wake_first(key.as_str());
                Ok(n)
            },
            Err(e) => Err(e),
        }
    }

    /// Pushes `elements`, one by one, onto the front of the list under `key`
    /// (so that they end up there in reverse order), creating the list
    /// (without expiry) when the key is absent, and wakes the first waiter on
    /// `key`; gives the new length. Fails with `KeyTaken`, and changes
    /// nothing, when the key holds a string.
    pub fn lpush(&mut self, key: String, elements: VecDeque<String>) -> (res: Result<
        usize,
        StoreError,
    >)
        requires
            old(self).wf(),
            read_list(old(self).entries(), key@) matches Ok(l) ==> l.len() + elements@.len()
                <= usize::MAX,
        ensures
            final(self).wf(),
            final(self).ticks() == old(self).ticks(),
            final(self).clock() == old(self).clock(),
            match read_list(old(self).entries(), key@) {
                Err(_) => {
                    &&& res == Err::<usize, StoreError>(StoreError::KeyTaken)
                    &&& final(self).entries() == old(self).entries()
                    &&& final(self).waiting() == old(self).waiting()
                },
                Ok(l) => {
                    &&& res matches Ok(n) && n == l.len() + elements@.len()
                    &&& final(self).entries() == old(self).entries().insert(
                        key@,
                        EntryView {
                            value: ValueView::Items(texts(elements@).reverse() + l),
                            expiry: expiry_of(old(self).entries(), key@),
                        },
                    )
                    &&& woke_first(old(self).waiting(), final(self).waiting(), key@)
                    &&& released_in_order(
                        queue_of(old(self).waiting(), key@),
                        queue_of(final(self).waiting(), key@),
                        final(self).last_release(),
                    )
                },
            },
    {
        let res = self.push_list(key.as_str(), elements, true);
        match res {
            Ok(n) => {
                self.wake_first(key.as_str());
                Ok(n)
            },
            Err(e) => Err(e),
        }
    }

    /// Adds `elements` to the list under `key`: at the back, or one by one
    /// at the front when `front` holds.
    fn push_list(&mut self, key: &str, elements: VecDeque<String>, front: bool) -> (res: Result<
        usize,
        StoreError,
    >)
        requires
            old(self).wf(),
            read_list(old(self).entries(), key@) matches Ok(l) ==> l.len() + elements@.len()
                <= usize::MAX,
        ensures
            final(self).wf(),
            final(self).ticks() == old(self).ticks(),
            final(self).clock() == old(self).clock(),
            final(self).waiting() == old(self).waiting(),
            match read_list(old(self).entries(), key@) {
                Err(_) => {
                    &&& res == Err::<usize, StoreError>(StoreError::KeyTaken)
                    &&& final(self).entries() == old(self).entries()
                },
                Ok(l) => {
                    &&& res matches Ok(n) && n == l.len() + elements@.len()
                    &&& final(self).entries() == old(self).entries().insert(
                        key@,
                        EntryView {
                            value: ValueView::Items(
                                if front {
                                    texts(elements@).reverse() + l
                                } else {
                                    l + texts(elements@)
                                },
                            ),
                            expiry: expiry_of(old(self).entries(), key@),
                        },
                    )
                },
            },
    {
        let ghost added = elements@;
        proof {
            assert(texts(added).reverse() =~= texts(added.reverse()));
        }
        match find_key(&self.data, key) {
            Some(i) => {
                proof {
                    self.lemma_entry_at(i as int);
                }
                let ghost before = self.data@;
                let mut slot = (String::new(), Entry::new(Value::String(String::new())));
                std::mem::swap(&mut self.data[i], &mut slot);
                let res = match &mut slot.1.value {
                    Value::List(l) => {
                        let ghost whole = l@;
                        if front {
                            prepend_each(l, elements);
                            assert(texts(l@) =~= texts(added.reverse()) + texts(whole));
                        } else {
                            append_back(l, elements);
                            assert(texts(l@) =~= texts(whole) + texts(added));
                        }
                        Ok(l.len())
                    },
                    Value::String(_) => Err(StoreError::KeyTaken),
                };
                let ghost fresh = slot;
                std::mem::swap(&mut self.data[i], &mut slot);
                proof {
                    assert(self.data@ =~= before.update(i as int, fresh));
                    lemma_keyed_update(before, i as int, fresh.0, fresh.1);
                    assert(self.entries() =~= keyed(before).map_values(|e: Entry| e@).insert(
                        key@,
                        fresh.1@,
                    ));
                    if res is Err {
                        assert(fresh == before[i as int]);
                        assert(self.data@ =~= before);
                    }
                }
                res
            },
            None => {
                let mut l: VecDeque<String> = VecDeque::new();
                if front {
                    prepend_each(&mut l, elements);
                    assert(texts(l@) =~= texts(added.reverse()) + Seq::empty());
                } else {
                    append_back(&mut l, elements);
                    assert(texts(l@) =~= Seq::empty() + texts(added));
                }
                let len = l.len();
                self.insert_entry(key.to_owned(), Entry::new(Value::List(l)));
                Ok(len)
            },
        }
    }

    /// Queues the request `id` on `key`, and gives the receiver that the
    /// next push to `key` may wake.
    pub fn subscribe(&mut self, id: u64, key: &str) -> (res: Receiver<()>)
        requires
            old(self).wf(),
        ensures
            final(self).wf(),
            final(self).entries() == old(self).entries(),
            final(self).ticks() == old(self).ticks(),
            final(self).clock() == old(self).clock(),
            final(self).waiting().contains_key(key@),
            final(self).waiting() == old(self).waiting().insert(
                key@,
                queue_of(old(self).waiting(), key@).insert(id, final(self).waiting()[key@][id]),
            ),
    {
        let (tx, rx) = open_channel();
        let ghost before = self.waiters@;
        match find_key(&self.waiters, key) {
            Some(i) => {
                proof {
                    lemma_keyed_at(before, i as int);
                }
                let mut slot = (String::new(), BTreeMap::new());
                std::mem::swap(&mut self.waiters[i], &mut slot);
                slot.1.insert(id, tx);
                let ghost fresh = slot;
                std::mem::swap(&mut self.waiters[i], &mut slot);
                proof {
                    assert(self.waiters@ =~= before.update(i as int, fresh));
                    lemma_keyed_update(before, i as int, fresh.0, fresh.1);
                    assert(self.waiting() =~= keyed(before).map_values(
                        |m: BTreeMap<u64, Sender<()>>| m@,
                    ).insert(key@, fresh.1@));
                    lemma_keyed_at(self.waiters@, i as int);
                }
            },
            None => {
                let mut m: BTreeMap<u64, Sender<()>> = BTreeMap::new();
                m.insert(id, tx);
                let ghost fresh_m = m;
                let k = key.to_owned();
                proof {
                    lemma_keyed_push(before, k, m);
                }
                self.waiters.push((k, m));
                proof {
                    assert(self.waiting() =~= keyed(before).map_values(
                        |m: BTreeMap<u64, Sender<()>>| m@,
                    ).insert(key@, fresh_m@));
                    assert(fresh_m@ =~= Map::<u64, Sender<()>>::empty().insert(id, fresh_m@[id]));
                }
            },
        }
        rx
    }

    /// Takes the request `id` off the queues of all of `keys`.
    pub fn unsubscribe(&mut self, id: u64, keys: &Vec<String>)
        requires
            old(self).wf(),
        ensures
            final(self).wf(),
            final(self).entries() == old(self).entries(),
            final(self).ticks() == old(self).ticks(),
            final(self).clock() == old(self).clock(),
            final(self).waiting() == unsubscribed(old(self).waiting(), id, texts(keys@)),
    {
        let ghost start = self.waiting();
        let mut j: usize = 0;
        while j < keys.len()
            invariant
                self.wf(),
                self.entries() == old(self).entries(),
                self.ticks() == old(self).ticks(),
                self.clock() == old(self).clock(),
                start == old(self).waiting(),
                0 <= j <= keys@.len(),
                self.waiting().dom() == start.dom(),
                forall|k: Seq<char>| #[trigger]
                    start.contains_key(k) ==> self.waiting()[k] == if texts(
                        keys@.take(j as int),
                    ).contains(k) {
                        start[k].remove(id)
                    } else {
                        start[k]
                    },
            decreases keys.len() - j,
        {
            let key = keys[j].as_str();
            let ghost before = self.waiters@;
            let ghost w = self.waiting();
            match find_key(&self.waiters, key) {
                Some(i) => {
                    proof {
                        lemma_keyed_at(before, i as int);
                    }
                    let mut slot = (String::new(), BTreeMap::new());
                    std::mem::swap(&mut self.waiters[i], &mut slot);
                    slot.1.remove(&id);
                    let ghost fresh = slot;
                    std::mem::swap(&mut self.waiters[i], &mut slot);
                    proof {
                        assert(self.waiters@ =~= before.update(i as int, fresh));
                        lemma_keyed_update(before, i as int, fresh.0, fresh.1);
                        assert(self.waiting() =~= w.insert(key@, w[key@].remove(id)));
                    }
                },
                None => {},
            }
            proof {
                let t = texts(keys@.take(j + 1));
                assert(t =~= texts(keys@.take(j as int)).push(key@));
                assert forall|k: Seq<char>| #[trigger] start.contains_key(k) implies self.waiting()[k]
                    == if t.contains(k) {
                    start[k].remove(id)
                } else {
                    start[k]
                } by {
                    if k == key@ {
                        assert(t[j as int] == k);
                        assert(start[k].remove(id).remove(id) =~= start[k].remove(id));
                    } else if t.contains(k) {
                        let q = choose|q: int| 0 <= q < t.len() && t[q] == k;
                        assert(texts(keys@.take(j as int))[q] == k);
                    } else {
                        if texts(keys@.take(j as int)).contains(k) {
                            let q = choose|q: int| 0 <= q < j && texts(keys@.take(j as int))[q] == k;
                            assert(t[q] == k);
                        }
                    }
                }
            }
            j = j + 1;
        }
        proof {
            assert(keys@.take(keys@.len() as int) =~= keys@);
            assert(self.waiting() =~= unsubscribed(start, id, texts(keys@)));
        }
    }

    /// Removes the entry under `key`, and gives it back.
    pub fn delete(&mut self, key: &str) -> (res: Option<Entry>)
        requires
            old(self).wf(),
        ensures
            final(self).wf(),
            final(self).entries() == old(self).entries().remove(key@),
            final(self).waiting() == old(self).waiting(),
            final(self).ticks() == old(self).ticks(),
            final(self).clock() == old(self).clock(),
            match res {
                Some(e) => old(self).entries().contains_key(key@) && e@ == old(self).entries()[key@],
                None => !old(self).entries().contains_key(key@),
            },
    {
        let ghost before = self.data@;
        match find_key(&self.data, key) {
            Some(i) => {
                proof {
                    lemma_keyed_at(before, i as int);
                    lemma_keyed_remove(before, i as int);
                }
                let (_, prev) = self.data.remove(i);
                assert(self.entries() =~= keyed(before).map_values(|e: Entry| e@).remove(key@));
                Some(prev)
            },
            None => {
                assert(self.entries() =~= keyed(before).map_values(|e: Entry| e@).remove(key@));
                None
            },
        }
    }
}

} // verus!
