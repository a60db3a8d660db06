//! The values that the store keeps, and its errors.

use vstd::prelude::*;
use std::collections::VecDeque;
use super::clock::{since_unix_epoch, system_now, whole_millis};

verus! {

/// Why a store operation failed.
#[derive(Debug, Clone, Copy, PartialEq, Eq, Structural)]
pub enum StoreError {
    /// Something outside the store's data went wrong (the clock).
    InternalError,
    /// The key holds a string where a list was asked for.
    KeyTaken,
    /// The key holds a value of another type than the operation needs.
    WrongType,
    /// A range lies outside the value.
    BadRange,
}

impl StoreError {
    /// The human-readable description of the error.
    pub fn message(&self) -> (res: &'static str)
        ensures
            res@ == match *self {
                StoreError::InternalError => "internal error"@,
                StoreError::KeyTaken => "key already taken"@,
                StoreError::WrongType => "wrong type"@,
                StoreError::BadRange => "bad range"@,
            },
    {
        match self {
            StoreError::InternalError => "internal error",
            StoreError::KeyTaken => "key already taken",
            StoreError::WrongType => "wrong type",
            StoreError::BadRange => "bad range",
        }
    }
}

/// A stored value: a string, or a list of strings.
pub enum Value {
    String(String),
    List(VecDeque<String>),
}

/// The model of a stored value.
pub enum ValueView {
    Text(Seq<char>),
    Items(Seq<Seq<char>>),
}

/// The texts of a sequence of strings.
pub open spec fn texts(s: Seq<String>) -> Seq<Seq<char>> {
    s.map_values(|x: String| x@)
}

impl View for Value {
    type V = ValueView;

    open spec fn view(&self) -> ValueView {
        match self {
            Value::String(s) => ValueView::Text(s@),
            Value::List(l) => ValueView::Items(texts(l@)),
        }
    }
}

/// A stored value with its expiry.
pub struct Entry {
    pub value: Value,
    /// Unix time in milliseconds after which the entry is expired; `None`
    /// means that it never expires.
    pub expiry: Option<u64>,
}

/// The model of an entry.
pub struct EntryView {
    pub value: ValueView,
    pub expiry: Option<u64>,
}

impl View for Entry {
    type V = EntryView;

    open spec fn view(&self) -> EntryView {
        EntryView { value: self.value@, expiry: self.expiry }
    }
}

impl EntryView {
    /// Whether the entry is expired at Unix time `now_ms` (in milliseconds).
    pub open spec fn expired_at(self, now_ms: u64) -> bool {
        match self.expiry {
            Some(exp) => now_ms > exp,
            None => false,
        }
    }

    /// Whether some time exists at which the entry is expired.
    pub open spec fn can_expire(self) -> bool {
        self.expiry matches Some(exp) && exp < u64::MAX
    }
}

impl Entry {
    /// An entry that never expires.
    pub fn new(value: Value) -> (res: Entry)
        ensures
            res.value == value,
            res.expiry is None,
    {
        Entry { value, expiry: None }
    }

    /// Sets the entry to expire at Unix time `expiry` (in milliseconds).
    pub fn with_expiry(&mut self, expiry: u64) -> (res: &mut Entry)
        ensures
            res.value == old(self).value,
            res.expiry == Some(expiry),
            *final(self) == *final(res),
    {
        self.expiry = Some(expiry);
        self
    }

    /// Whether the entry is expired at Unix time `now_ms` (in milliseconds).
    pub fn is_expired_at(&self, now_ms: u64) -> (res: bool)
        ensures
            res == self@.expired_at(now_ms),
    {
        match self.expiry {
            Some(exp) => now_ms > exp,
            None => false,
        }
    }

    /// Whether the entry is expired now, by the wall clock. Fails with
    /// `InternalError` when the clock reads a time before the Unix epoch.
    pub fn is_expired(&self) -> (res: Result<bool, StoreError>)
        ensures
            res matches Err(e) ==> e == StoreError::InternalError,
            res matches Ok(b) ==> (b ==> self@.can_expire()),
    {
        match now_ms() {
            Some(t) => Ok(self.is_expired_at(t)),
            None => Err(StoreError::InternalError),
        }
    }
}

/// The wall clock as Unix time in milliseconds (truncated to 64 bits), or
/// `None` when it reads a time before the Unix epoch.
pub(crate) fn now_ms() -> Option<u64> {
    let now = system_now();
    match since_unix_epoch(&now) {
        Ok(d) => {
            let ms = whole_millis(&d);
            Some(#[verifier::truncate] (ms as u64))
        },
        Err(_) => None,
    }
}

} // verus!
