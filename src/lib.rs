//! Identity-gated access to values.
//!
//! A key carries an identity that no other live key shares. Locking a value
//! with a key turns it into a locked value tagged with that identity; every
//! read, write or unlock of the locked value must present a key whose identity
//! equals the tag, and fails without touching the value otherwise.
use vstd::prelude::*;

mod key;
mod locked;

pub use key::{balance, lemma_balance_of_locks, lemma_local_close_after_steps, lemma_local_close_releases_each, lemma_shared_close_after_steps, lemma_shared_close_releases_each, Dropping, DroppingKey, ForgettingKey, LocalDroppingKey};


pub use locked::{is_nul_terminated, lemma_vec_shape_kept, LockedArc, LockedBox, LockedCString, LockedMut, LockedRc, LockedString, LockedVec};

verus! {

/// The identity of a key.
///
/// Identities are minted in increasing order from a [`KeyIdCounter`] and are
/// never handed out twice by the same counter.
#[derive(Clone, Copy, PartialEq, Eq, Structural, Debug)]
pub struct KeyId {
    id: usize,
}

/// The source of fresh identities: the next number to hand out.
///
/// A program keeps one counter for its whole run, starting at zero, so that
/// every key it creates gets an identity of its own.
#[derive(Debug)]
pub struct KeyIdCounter {
    next: usize,
}

impl KeyId {
    /// The number behind this identity.
    pub closed spec fn value(self) -> nat {
        self.id as nat
    }

    /// Mints the next identity of `counter`, which must not be exhausted.
    pub fn new(counter: &mut KeyIdCounter) -> (r: KeyId)
        requires
            old(counter).minted() < usize::MAX,
        ensures
            r.value() == old(counter).minted(),
            final(counter).minted() == old(counter).minted() + 1,
    {
        if counter.next == usize::MAX {
            unreached()
        } else {
            let id = counter.next;
            counter.next = counter.next + 1;
            KeyId { id }
        }
    }
}

impl KeyIdCounter {
    /// How many identities this counter has handed out so far.
    pub closed spec fn minted(&self) -> nat {
        self.next as nat
    }

    /// A counter that has handed out nothing yet.
    pub fn new() -> (r: KeyIdCounter)
        ensures
            r.minted() == 0,
    {
        KeyIdCounter { next: 0 }
    }

    /// Whether every identity of this counter has been handed out, so that
    /// no key can be made from it any more.
    pub fn is_exhausted(&self) -> (r: bool)
        ensures
            r == (self.minted() == usize::MAX),
    {
        self.next == usize::MAX
    }
}

/// Two identities minted one after the other by the same counter differ.
pub proof fn lemma_minted_ids_distinct(a: KeyId, b: KeyId, counter: KeyIdCounter)
    requires
        a.value() < counter.minted(),
        b.value() == counter.minted(),
    ensures
        a != b,
{
}

/// An access made with a key whose identity is not the one a locked value
/// was tagged with.
#[derive(Clone, Copy, PartialEq, Eq, Structural, Debug)]
pub struct KeyMismatch {
    /// The identity the locked value was tagged with.
    pub expected: KeyId,
    /// The identity of the key that was presented.
    pub found: KeyId,
}

/// The check made at every access to a locked value: the presented identity
/// `key_id` must be the identity `value_id` the value carries. A caller that
/// cannot show this uses `try_check_id` first.
pub fn check_id(key_id: KeyId, value_id: KeyId)
    requires
        key_id == value_id,
{
    if key_id != value_id {
        unreached()
    }
}

/// Compares the presented identity `key_id` with the identity `value_id` a
/// locked value carries, and reports both when they differ.
pub fn try_check_id(key_id: KeyId, value_id: KeyId) -> (r: Result<(), KeyMismatch>)
    ensures
        r == id_check(key_id, value_id),
{
    if key_id == value_id {
        Ok(())
    } else {
        Err(KeyMismatch { expected: value_id, found: key_id })
    }
}

/// The outcome of presenting identity `key_id` to a value tagged `value_id`.
pub open spec fn id_check(key_id: KeyId, value_id: KeyId) -> Result<(), KeyMismatch> {
    if key_id == value_id {
        Ok(())
    } else {
        Err(KeyMismatch { expected: value_id, found: key_id })
    }
}

/// Something that can report its own identity.
///
/// Two keys that report the same identity must never be in use at the same
/// time; the keys of this crate meet this by minting a fresh identity for
/// each key value and never copying it.
pub trait Key {
    /// The identity this key reports.
    spec fn key_view(&self) -> KeyId;

    /// Reports this key's identity.
    fn id(&self) -> (r: KeyId)
        ensures
            r == self.key_view(),
    ;
}

/// A value locked with one key is refused to a key minted after it: the
/// identity check fails and reports both identities, so no access is allowed.
pub proof fn lemma_identity_isolation<L: Locked, K1: Key, K2: Key>(locked: L, first: &K1, second: &K2)
    requires
        locked.stored_id() == first.key_view(),
        first.key_view().value() < second.key_view().value(),
    ensures
        id_check(second.key_view(), locked.stored_id()) == Err::<(), KeyMismatch>(
            KeyMismatch { expected: first.key_view(), found: second.key_view() },
        ),
{
}

/// A value held behind an identity check.
///
/// A locked value remembers the identity of the key that made it and hands
/// out its unlocked form only to a key with that identity. Dropping a locked
/// value without unlocking it releases nothing: what it holds stays allocated.
pub trait Locked: Sized {
    /// The form of the value outside the lock.
    type Unlocked;

    /// The identity this value was tagged with when it was locked.
    spec fn stored_id(&self) -> KeyId;

    /// The unlocked value this locked value stands for.
    spec fn contents(&self) -> Self::Unlocked;

    /// Whether `value` has the shape this kind of lock holds.
    spec fn admits(value: Self::Unlocked) -> bool;

    /// Whether `a` and `b` are the same unlocked value: equal, or for a
    /// borrow, pointing at equal values.
    spec fn same(a: Self::Unlocked, b: Self::Unlocked) -> bool;

    /// Being the same unlocked value is transitive.
    proof fn lemma_same_transitive(a: Self::Unlocked, b: Self::Unlocked, c: Self::Unlocked)
        requires
            Self::same(a, b),
            Self::same(b, c),
        ensures
            Self::same(a, c),
    ;

    /// Reports the identity this value was tagged with.
    fn key_id(&self) -> (r: KeyId)
        ensures
            r == self.stored_id(),
    ;

    /// Locks `value`, tagging it with the identity of `key`.
    fn raw_lock<K: Key>(value: Self::Unlocked, key: &K) -> (r: Self)
        requires
            Self::admits(value),
        ensures
            r.stored_id() == key.key_view(),
            Self::same(r.contents(), value),
    ;

    /// Unlocks this value with `key`, which must carry the identity it was
    /// tagged with.
    fn raw_unlock<K: Key>(self, key: &K) -> (r: Self::Unlocked)
        requires
            key.key_view() == self.stored_id(),
        ensures
            Self::same(r, self.contents()),
    ;
}

/// Locking a value and then unlocking it with the same key gives back the
/// value that was locked.
pub proof fn lemma_round_trip<L: Locked, K: Key>(
    value: L::Unlocked,
    key: &K,
    locked: L,
    back: L::Unlocked,
)
    requires
        call_ensures(L::raw_lock::<K>, (value, key), locked),
        call_ensures(L::raw_unlock::<K>, (locked, key), back),
    ensures
        L::same(back, value),
{
    L::lemma_same_transitive(back, locked.contents(), value);
}

} // verus!
