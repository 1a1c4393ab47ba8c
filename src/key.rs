//! Keys: the minimal key, and the keys that keep a record of what they locked.
use crate::{Key, KeyId, KeyIdCounter, Locked};
use std::marker::PhantomData;
use vstd::prelude::*;

verus! {

/// A key that keeps no record of what it locked.
///
/// A value locked with it and never unlocked stays allocated for good.
#[derive(Debug)]
pub struct ForgettingKey {
    id: KeyId,
}

impl Key for ForgettingKey {
    closed spec fn key_view(&self) -> KeyId {
        self.id
    }

    fn id(&self) -> (r: KeyId) {
        self.id
    }
}

impl ForgettingKey {
    /// A key with the next identity of `counter`, which must not be
    /// exhausted.
    pub fn new(counter: &mut KeyIdCounter) -> (r: ForgettingKey)
        requires
            old(counter).minted() < usize::MAX,
        ensures
            r.key_view().value() == old(counter).minted(),
            final(counter).minted() == old(counter).minted() + 1,
    {
        ForgettingKey { id: KeyId::new(counter) }
    }

    /// Locks `value` with this key.
    pub fn lock<T: Locked>(&self, value: T::Unlocked) -> (r: T)
        requires
            T::admits(value),
        ensures
            r.stored_id() == self.key_view(),
            T::same(r.contents(), value),
    {
        T::raw_lock(value, self)
    }

    /// Unlocks `value`, which must have been locked with this key.
    pub fn unlock<T: Locked>(&mut self, value: T) -> (r: T::Unlocked)
        requires
            value.stored_id() == old(self).key_view(),
        ensures
            *final(self) == *old(self),
            T::same(r, value.contents()),
    {
        value.raw_unlock(self)
    }
}

/// A record of one value locked through a key that keeps records: the
/// handle it was given and the locked value itself.
#[derive(Debug)]
struct Dropper<T> {
    ptr: u64,
    value: T,
}

impl<T: Locked> Dropper<T> {
    /// Unlocks the recorded value with `key`, which must carry the identity
    /// the value was locked with.
    fn unlock_record(self, key: &ForgettingKey) -> (r: T::Unlocked)
        requires
            self.value.stored_id() == key.key_view(),
        ensures
            T::same(r, self.value.contents()),
    {
        self.value.raw_unlock(key)
    }
}

/// Unlocks every recorded value with `key`, last record first, and hands back
/// the unlocked values, one for each record.
fn unlock_all<T: Locked>(droppers: Vec<Dropper<T>>, key: &ForgettingKey) -> (r: Vec<
    T::Unlocked,
>)
    requires
        forall|i: int| 0 <= i < droppers@.len() ==> #[trigger] droppers@[i].value.stored_id() == key.key_view(),
    ensures
        r@.len() == droppers@.len(),
        forall|i: int|
            0 <= i < r@.len() ==> T::same(
                #[trigger] r@[i],
                droppers@[droppers@.len() - 1 - i].value.contents(),
            ),
{
    let mut droppers = droppers;
    let ghost rev = droppers@;
    let mut out: Vec<T::Unlocked> = Vec::new();
    while droppers.len() > 0
        invariant
            rev.len() == droppers@.len() + out@.len(),
            droppers@ == rev.subrange(0, droppers@.len() as int),
            forall|i: int| 0 <= i < rev.len() ==> #[trigger] rev[i].value.stored_id() == key.key_view(),
            forall|i: int|
                0 <= i < out@.len() ==> T::same(
                    #[trigger] out@[i],
                    rev[rev.len() - 1 - i].value.contents(),
                ),
        decreases droppers@.len(),
    {
        let d = droppers.pop().unwrap();
        let u = d.unlock_record(key);
        out.push(u);
    }
    out
}


/// A handle to a value locked through a key that keeps records.
///
/// It names the record the key keeps of the value; the key gives access to
/// the value through it, and unlocks the value when given it back.
#[derive(Debug)]
pub struct Dropping<T> {
    ptr: u64,
    key_id: KeyId,
    marker: PhantomData<T>,
}

impl<T> Dropping<T> {
    /// The number of the record this handle names.
    pub closed spec fn handle(&self) -> u64 {
        self.ptr
    }

    /// The identity of the key that made this handle.
    pub closed spec fn owner(&self) -> KeyId {
        self.key_id
    }
}

/// The records a key keeps of the values it locked and has not unlocked.
#[derive(Debug)]
struct Registry<T> {
    inner: ForgettingKey,
    droppers: Vec<Dropper<T>>,
    next: u64,
}

impl<T: Locked> Registry<T> {
    /// The handles of the records, oldest first.
    spec fn handles(&self) -> Seq<u64> {
        self.droppers@.map_values(|d: Dropper<T>| d.ptr)
    }

    /// The locked values of the records, oldest first.
    spec fn held(&self) -> Seq<T> {
        self.droppers@.map_values(|d: Dropper<T>| d.value)
    }

    /// Whether `h` was made by this key and names one of its records.
    spec fn holds(&self, h: &Dropping<T>) -> bool {
        h.key_id == self.inner.id && self.handles().contains(h.ptr)
    }

    /// Whether every recorded value carries identity `id`.
    spec fn all_tagged(&self, id: KeyId) -> bool {
        forall|i: int| 0 <= i < self.held().len() ==> (#[trigger] self.held()[i]).stored_id() == id
    }

    /// The index of the record with handle `p`.
    spec fn position(&self, p: u64) -> int {
        choose|i: int| 0 <= i < self.handles().len() && self.handles()[i] == p
    }

    /// Handles are unique, so the record with the handle at `i` is at `i`.
    proof fn lemma_position(&self, i: int)
        requires
            self.wf(),
            0 <= i < self.handles().len(),
        ensures
            self.position(self.handles()[i]) == i,
    {
        let p = self.handles()[i];
        let j = self.position(p);
        assert(self.handles()[j] == p);
        assert(self.droppers@[j].ptr == self.droppers@[i].ptr);
    }

    /// Every recorded value carries the inner key's identity, and the
    /// handles are distinct and below the next one to be given out.
    spec fn wf(&self) -> bool {
        &&& forall|i: int|
            0 <= i < self.held().len() ==> (#[trigger] self.held()[i]).stored_id() == self.inner.id
        &&& forall|i: int| 0 <= i < self.handles().len() ==> #[trigger] self.handles()[i] < self.next
        &&& forall|i: int, j: int|
            0 <= i < j < self.handles().len() ==> #[trigger] self.handles()[i]
                != #[trigger] self.handles()[j]
    }

    /// Records keep their consistency when only their values change, as long
    /// as the values keep this key's identity.
    proof fn lemma_wf_kept(a: &Self)
        requires
            a.wf(),
        ensures
            forall|b: Self|
                b.inner == a.inner && b.next == a.next && b.droppers@.len() == a.droppers@.len()
                    && (forall|j: int|
                    0 <= j < b.droppers@.len() ==> (#[trigger] b.droppers@[j]).ptr
                        == a.droppers@[j].ptr) && b.all_tagged(a.inner.id) ==> #[trigger] b.wf(),
    {
        assert forall|b: Self|
            b.inner == a.inner && b.next == a.next && b.droppers@.len() == a.droppers@.len()
                && (forall|j: int|
                0 <= j < b.droppers@.len() ==> (#[trigger] b.droppers@[j]).ptr
                    == a.droppers@[j].ptr) && b.all_tagged(a.inner.id) implies #[trigger] b.wf() by {
            assert(b.handles() =~= a.handles());
        }
    }

    fn new(inner: ForgettingKey) -> (r: Self)
        ensures
            r.wf(),
            r.inner == inner,
            r.droppers@.len() == 0,
            r.next == 0,
    {
        Registry { inner, droppers: Vec::new(), next: 0 }
    }

    fn lock(&mut self, value: T::Unlocked) -> (r: Dropping<T>)
        requires
            old(self).wf(),
            T::admits(value),
            old(self).next < u64::MAX,
        ensures
            final(self).wf(),
            final(self).inner == old(self).inner,
            final(self).next == old(self).next + 1,
            r.key_id == old(self).inner.id,
            r.ptr == old(self).next,
            !old(self).handles().contains(r.ptr),
            final(self).holds(&r),
            forall|p: u64| #[trigger] final(self).handles().contains(p) <==> (old(self).handles().contains(p) || p == r.ptr),
            final(self).handles() == old(self).handles().push(r.ptr),
            final(self).held().len() == old(self).held().len() + 1,
            final(self).held().drop_last() == old(self).held(),
            final(self).held().last().stored_id() == old(self).inner.id,
            T::same(final(self).held().last().contents(), value),
    {
        let value: T = self.inner.lock(value);
        let ptr = self.next;
        self.droppers.push(Dropper { ptr, value });
        self.next = self.next + 1;
        proof {
            assert(self.handles() =~= old(self).handles().push(ptr));
            assert(self.held() =~= old(self).held().push(value));
            assert(self.held().drop_last() =~= old(self).held());
            assert(self.handles()[self.handles().len() - 1] == ptr);
            assert(self.handles().contains(ptr));
            assert forall|p: u64| #[trigger] self.handles().contains(p) <==> (old(self).handles().contains(p) || p == ptr) by {
                if old(self).handles().contains(p) {
                    let j = choose|j: int| 0 <= j < old(self).handles().len() && old(self).handles()[j] == p;
                    assert(self.handles()[j] == p);
                }
                if self.handles().contains(p) && p != ptr {
                    let j = choose|j: int| 0 <= j < self.handles().len() && self.handles()[j] == p;
                    assert(old(self).handles()[j] == p);
                }
            }
            if old(self).handles().contains(ptr) {
                let j = choose|j: int| 0 <= j < old(self).handles().len() && old(self).handles()[j] == ptr;
                assert(old(self).handles()[j] < old(self).next);
            }
        }
        Dropping { ptr, key_id: self.inner.id, marker: PhantomData }
    }

    /// The index of the record `h` names, if any.
    fn find(&self, h: &Dropping<T>) -> (r: Option<usize>)
        ensures
            self.holds(h) ==> (r matches Some(i) && i < self.droppers@.len()
                && self.droppers@[i as int].ptr == h.ptr),
            !self.holds(h) ==> r is None,
    {
        if h.key_id != self.inner.id {
            return None;
        }
        let mut i: usize = 0;
        while i < self.droppers.len()
            invariant
                i <= self.droppers@.len(),
                h.key_id == self.inner.id,
                forall|j: int| 0 <= j < i ==> self.droppers@[j].ptr != h.ptr,
            decreases self.droppers@.len() - i,
        {
            if self.droppers[i].ptr == h.ptr {
                proof {
                    assert(self.handles()[i as int] == h.ptr);
                    assert(self.handles().contains(h.ptr));
                }
                return Some(i);
            }
            i = i + 1;
        }
        proof {
            assert forall|j: int| 0 <= j < self.handles().len() implies self.handles()[j]
                != h.ptr by {
                assert(self.droppers@[j].ptr != h.ptr);
            }
        }
        None
    }

    fn get(&self, h: &Dropping<T>) -> (r: Option<&T>)
        requires
            self.wf(),
        ensures
            self.holds(h) ==> (r matches Some(v) && *v == self.held()[self.position(h.ptr)]),
            !self.holds(h) ==> r is None,
    {
        match self.find(h) {
            Some(i) => {
                proof {
                    assert(self.handles()[i as int] == h.ptr);
                    self.lemma_position(i as int);
                }
                Some(&self.droppers[i].value)
            },
            None => None,
        }
    }

    fn get_mut(&mut self, h: &Dropping<T>) -> (r: Option<(&mut T, &ForgettingKey)>)
        requires
            old(self).wf(),
        ensures
            final(self).inner == old(self).inner,
            final(self).next == old(self).next,
            final(self).handles() == old(self).handles(),
            old(self).holds(h) ==> (r matches Some(p) && *p.0 == old(self).held()[old(self).position(h.ptr)]
                && *p.1 == old(self).inner && final(self).held() == old(self).held().update(
                old(self).position(h.ptr),
                *final(p.0),
            )),
            !old(self).holds(h) ==> r is None && final(self).droppers@ == old(self).droppers@,
            final(self).held().len() == old(self).held().len(),
            final(self).all_tagged(old(self).inner.id) ==> final(self).wf(),
    {
        proof {
            Self::lemma_wf_kept(&*self);
        }
        match self.find(h) {
            Some(i) => {
                proof {
                    assert(self.handles()[i as int] == h.ptr);
                    self.lemma_position(i as int);
                }
                let Registry { inner, droppers, next } = self;
                let d = &mut droppers[i];
                Some((&mut d.value, &*inner))
            },
            None => None,
        }
    }

    fn unlock(&mut self, h: Dropping<T>) -> (r: T::Unlocked)
        requires
            old(self).wf(),
            old(self).holds(&h),
        ensures
            final(self).wf(),
            final(self).inner == old(self).inner,
            final(self).next == old(self).next,
            final(self).handles() == old(self).handles().remove(old(self).position(h.ptr)),
            forall|p: u64| #[trigger] final(self).handles().contains(p) <==> (old(self).handles().contains(p) && p != h.ptr),
            final(self).held() == old(self).held().remove(old(self).position(h.ptr)),
            T::same(r, old(self).held()[old(self).position(h.ptr)].contents()),
    {
        match self.find(&h) {
            Some(i) => {
                let d = self.droppers.remove(i);
                proof {
                    assert(old(self).held()[i as int] == old(self).droppers@[i as int].value);
                    assert(self.handles() =~= old(self).handles().remove(i as int));
                    assert(self.held() =~= old(self).held().remove(i as int));
                    assert forall|a: int, b: int|
                        0 <= a < b < self.handles().len() implies #[trigger] self.handles()[a]
                        != #[trigger] self.handles()[b] by {
                        let a0 = if a < i { a } else { a + 1 };
                        let b0 = if b < i { b } else { b + 1 };
                        assert(self.handles()[a] == old(self).handles()[a0]);
                        assert(self.handles()[b] == old(self).handles()[b0]);
                    }
                    assert(old(self).handles()[i as int] == h.ptr);
                    old(self).lemma_position(i as int);
                    assert forall|p: u64| #[trigger] self.handles().contains(p) <==> (old(self).handles().contains(p) && p != h.ptr) by {
                        if old(self).handles().contains(p) && p != h.ptr {
                            let j = choose|j: int| 0 <= j < old(self).handles().len() && old(self).handles()[j] == p;
                            assert(j != i);
                            let j2 = if j < i { j } else { j - 1 };
                            assert(self.handles()[j2] == p);
                        }
                        if self.handles().contains(p) {
                            let j = choose|j: int| 0 <= j < self.handles().len() && self.handles()[j] == p;
                            let j0 = if j < i { j } else { j + 1 };
                            assert(old(self).handles()[j0] == p);
                            assert(j0 != i);
                        }
                    }
                }
                d.unlock_record(&self.inner)
            },
            None => unreached(),
        }
    }

    fn close(self) -> (r: Vec<T::Unlocked>)
        requires
            self.wf(),
        ensures
            r@.len() == self.held().len(),
            forall|i: int|
                0 <= i < r@.len() ==> T::same(
                    #[trigger] r@[i],
                    self.held()[self.held().len() - 1 - i].contents(),
                ),
    {
        proof {
            assert forall|i: int| 0 <= i < self.droppers@.len() implies #[trigger] self.droppers@[i].value.stored_id()
                == self.inner.key_view() by {
                assert(self.held()[i] == self.droppers@[i].value);
            }
        }
        unlock_all(self.droppers, &self.inner)
    }
}

/// A key that keeps a record of every value locked through it and not yet
/// unlocked, for use from one thread.
///
/// Closing the key unlocks every value it still holds and hands them back,
/// so none outlives it; a key dropped without being closed leaves them
/// allocated, as the forgetting key does.
#[derive(Debug)]
pub struct LocalDroppingKey<T> {
    registry: Registry<T>,
}

impl<T: Locked> Key for LocalDroppingKey<T> {
    closed spec fn key_view(&self) -> KeyId {
        self.registry.inner.id
    }

    fn id(&self) -> (r: KeyId) {
        self.registry.inner.id
    }
}

impl<T: Locked> LocalDroppingKey<T> {
    /// Whether the records of this key are consistent: every recorded value
    /// carries this key's identity, and no two records share a handle.
    pub closed spec fn wf(&self) -> bool {
        self.registry.wf()
    }

    /// The handles of the values locked through this key and not yet
    /// unlocked, oldest first.
    pub closed spec fn handles(&self) -> Seq<u64> {
        self.registry.handles()
    }

    /// The locked values this key holds, in the order of `handles`.
    pub closed spec fn held(&self) -> Seq<T> {
        self.registry.held()
    }

    /// The handle the next lock will give out.
    pub closed spec fn next_handle(&self) -> nat {
        self.registry.next as nat
    }

    /// Whether a handle is left for another lock.
    pub fn can_lock(&self) -> (r: bool)
        ensures
            r == (self.next_handle() < u64::MAX),
    {
        self.registry.next < u64::MAX
    }

    /// The records of a consistent key have distinct handles, all below the
    /// next one to be given out.
    pub proof fn lemma_handles_distinct(&self)
        requires
            self.wf(),
        ensures
            forall|i: int, j: int|
                0 <= i < j < self.handles().len() ==> #[trigger] self.handles()[i]
                    != #[trigger] self.handles()[j],
            forall|i: int| 0 <= i < self.handles().len() ==> #[trigger] self.handles()[i] < self.next_handle(),
    {
    }

    /// Whether `h` names a value this key holds.
    pub open spec fn holds(&self, h: &Dropping<T>) -> bool {
        h.owner() == self.key_view() && self.handles().contains(h.handle())
    }

    /// Whether every value this key holds carries identity `id`.
    pub closed spec fn all_tagged(&self, id: KeyId) -> bool {
        self.registry.all_tagged(id)
    }

    /// Where the record `h` names stands among the records of this key.
    pub open spec fn position(&self, h: &Dropping<T>) -> int {
        choose|i: int| 0 <= i < self.handles().len() && self.handles()[i] == h.handle()
    }

    /// A key with the next identity of `counter`, which must not be
    /// exhausted, and no records.
    pub fn new(counter: &mut KeyIdCounter) -> (r: Self)
        requires
            old(counter).minted() < usize::MAX,
        ensures
            r.wf(),
            r.key_view().value() == old(counter).minted(),
            r.held().len() == 0,
            r.handles().len() == 0,
            r.next_handle() == 0,
            final(counter).minted() == old(counter).minted() + 1,
    {
        match ForgettingKey::new(counter) {
            inner => LocalDroppingKey { registry: Registry::new(inner) },
        }
    }

    /// Locks `value` with this key and records it; the key keeps the locked
    /// value and hands out a handle to it.
    pub fn lock(&mut self, value: T::Unlocked) -> (r: Dropping<T>)
        requires
            old(self).wf(),
            T::admits(value),
            old(self).next_handle() < u64::MAX,
        ensures
            final(self).wf(),
            final(self).key_view() == old(self).key_view(),
            final(self).next_handle() == old(self).next_handle() + 1,
            r.owner() == old(self).key_view(),
            r.handle() == old(self).next_handle(),
            !old(self).handles().contains(r.handle()),
            final(self).holds(&r),
            forall|p: u64| #[trigger] final(self).handles().contains(p) <==> (old(self).handles().contains(p) || p == r.handle()),
            final(self).handles() == old(self).handles().push(r.handle()),
            final(self).held().len() == old(self).held().len() + 1,
            final(self).held().drop_last() == old(self).held(),
            final(self).held().last().stored_id() == old(self).key_view(),
            T::same(final(self).held().last().contents(), value),
    {
        self.registry.lock(value)
    }

    /// The locked value `h` names, if this key holds it.
    pub fn get(&self, h: &Dropping<T>) -> (r: Option<&T>)
        requires
            self.wf(),
        ensures
            self.holds(h) ==> 0 <= self.position(h) < self.held().len() && self.handles()[self.position(h)] == h.handle(),
            self.holds(h) ==> (r matches Some(v) && *v == self.held()[self.position(h)]),
            !self.holds(h) ==> r is None,
    {
        self.registry.get(h)
    }

    /// Exclusive access to the locked value `h` names, if this key holds it,
    /// together with a key that opens it. The records stay consistent as long
    /// as the value keeps the identity it was locked with.
    pub fn get_mut(&mut self, h: &Dropping<T>) -> (r: Option<(&mut T, &ForgettingKey)>)
        requires
            old(self).wf(),
        ensures
            final(self).key_view() == old(self).key_view(),
            final(self).next_handle() == old(self).next_handle(),
            final(self).handles() == old(self).handles(),
            final(self).held().len() == old(self).held().len(),
            old(self).holds(h) ==> 0 <= old(self).position(h) < old(self).held().len()
                && old(self).handles()[old(self).position(h)] == h.handle(),
            old(self).holds(h) ==> (r matches Some(p) && *p.0 == old(self).held()[old(self).position(h)]
                && p.1.key_view() == old(self).key_view() && final(self).held() == old(
                self,
            ).held().update(old(self).position(h), *final(p.0))),
            !old(self).holds(h) ==> r is None && final(self).held() == old(self).held(),
            final(self).all_tagged(old(self).key_view()) ==> final(self).wf(),
    {
        self.registry.get_mut(h)
    }

    /// Unlocks the value `value` names, which this key must hold, and drops
    /// its record.
    pub fn unlock(&mut self, value: Dropping<T>) -> (r: T::Unlocked)
        requires
            old(self).wf(),
            old(self).holds(&value),
        ensures
            final(self).wf(),
            final(self).key_view() == old(self).key_view(),
            final(self).next_handle() == old(self).next_handle(),
            0 <= old(self).position(&value) < old(self).held().len(),
            old(self).handles()[old(self).position(&value)] == value.handle(),
            final(self).handles() == old(self).handles().remove(old(self).position(&value)),
            forall|p: u64| #[trigger] final(self).handles().contains(p) <==> (old(self).handles().contains(p) && p != value.handle()),
            final(self).held() == old(self).held().remove(old(self).position(&value)),
            T::same(r, old(self).held()[old(self).position(&value)].contents()),
    {
        self.registry.unlock(value)
    }

    /// Ends this key: unlocks every value it still holds, newest first, and
    /// hands them back, one for each record, for the caller to release.
    pub fn close(self) -> (r: Vec<T::Unlocked>)
        requires
            self.wf(),
        ensures
            r@.len() == self.held().len(),
            forall|i: int|
                0 <= i < r@.len() ==> T::same(
                    #[trigger] r@[i],
                    self.held()[self.held().len() - 1 - i].contents(),
                ),
    {
        self.registry.close()
    }
}

/// A key that keeps a record of every value locked through it and not yet
/// unlocked; it can be handed to another thread with the values it holds.
///
/// Closing the key unlocks every value it still holds and hands them back,
/// so none outlives it; a key dropped without being closed leaves them
/// allocated, as the forgetting key does.
#[derive(Debug)]
pub struct DroppingKey<T> {
    registry: Registry<T>,
}

impl<T: Locked + Send + Sync> Key for DroppingKey<T> {
    closed spec fn key_view(&self) -> KeyId {
        self.registry.inner.id
    }

    fn id(&self) -> (r: KeyId) {
        self.registry.inner.id
    }
}

impl<T: Locked + Send + Sync> DroppingKey<T> {
    /// Whether the records of this key are consistent: every recorded value
    /// carries this key's identity, and no two records share a handle.
    pub closed spec fn wf(&self) -> bool {
        self.registry.wf()
    }

    /// The handles of the values locked through this key and not yet
    /// unlocked, oldest first.
    pub closed spec fn handles(&self) -> Seq<u64> {
        self.registry.handles()
    }

    /// The locked values this key holds, in the order of `handles`.
    pub closed spec fn held(&self) -> Seq<T> {
        self.registry.held()
    }

    /// The handle the next lock will give out.
    pub closed spec fn next_handle(&self) -> nat {
        self.registry.next as nat
    }

    /// Whether a handle is left for another lock.
    pub fn can_lock(&self) -> (r: bool)
        ensures
            r == (self.next_handle() < u64::MAX),
    {
        self.registry.next < u64::MAX
    }

    /// The records of a consistent key have distinct handles, all below the
    /// next one to be given out.
    pub proof fn lemma_handles_distinct(&self)
        requires
            self.wf(),
        ensures
            forall|i: int, j: int|
                0 <= i < j < self.handles().len() ==> #[trigger] self.handles()[i]
                    != #[trigger] self.handles()[j],
            forall|i: int| 0 <= i < self.handles().len() ==> #[trigger] self.handles()[i] < self.next_handle(),
    {
    }

    /// Whether `h` names a value this key holds.
    pub open spec fn holds(&self, h: &Dropping<T>) -> bool {
        h.owner() == self.key_view() && self.handles().contains(h.handle())
    }

    /// Whether every value this key holds carries identity `id`.
    pub closed spec fn all_tagged(&self, id: KeyId) -> bool {
        self.registry.all_tagged(id)
    }

    /// Where the record `h` names stands among the records of this key.
    pub open spec fn position(&self, h: &Dropping<T>) -> int {
        choose|i: int| 0 <= i < self.handles().len() && self.handles()[i] == h.handle()
    }

    /// A key with the next identity of `counter`, which must not be
    /// exhausted, and no records.
    pub fn new(counter: &mut KeyIdCounter) -> (r: Self)
        requires
            old(counter).minted() < usize::MAX,
        ensures
            r.wf(),
            r.key_view().value() == old(counter).minted(),
            r.held().len() == 0,
            r.handles().len() == 0,
            r.next_handle() == 0,
            final(counter).minted() == old(counter).minted() + 1,
    {
        match ForgettingKey::new(counter) {
            inner => DroppingKey { registry: Registry::new(inner) },
        }
    }

    /// Locks `value` with this key and records it; the key keeps the locked
    /// value and hands out a handle to it.
    pub fn lock(&mut self, value: T::Unlocked) -> (r: Dropping<T>)
        requires
            old(self).wf(),
            T::admits(value),
            old(self).next_handle() < u64::MAX,
        ensures
            final(self).wf(),
            final(self).key_view() == old(self).key_view(),
            final(self).next_handle() == old(self).next_handle() + 1,
            r.owner() == old(self).key_view(),
            r.handle() == old(self).next_handle(),
            !old(self).handles().contains(r.handle()),
            final(self).holds(&r),
            forall|p: u64| #[trigger] final(self).handles().contains(p) <==> (old(self).handles().contains(p) || p == r.handle()),
            final(self).handles() == old(self).handles().push(r.handle()),
            final(self).held().len() == old(self).held().len() + 1,
            final(self).held().drop_last() == old(self).held(),
            final(self).held().last().stored_id() == old(self).key_view(),
            T::same(final(self).held().last().contents(), value),
    {
        self.registry.lock(value)
    }

    /// The locked value `h` names, if this key holds it.
    pub fn get(&self, h: &Dropping<T>) -> (r: Option<&T>)
        requires
            self.wf(),
        ensures
            self.holds(h) ==> 0 <= self.position(h) < self.held().len() && self.handles()[self.position(h)] == h.handle(),
            self.holds(h) ==> (r matches Some(v) && *v == self.held()[self.position(h)]),
            !self.holds(h) ==> r is None,
    {
        self.registry.get(h)
    }

    /// Exclusive access to the locked value `h` names, if this key holds it,
    /// together with a key that opens it. The records stay consistent as long
    /// as the value keeps the identity it was locked with.
    pub fn get_mut(&mut self, h: &Dropping<T>) -> (r: Option<(&mut T, &ForgettingKey)>)
        requires
            old(self).wf(),
        ensures
            final(self).key_view() == old(self).key_view(),
            final(self).next_handle() == old(self).next_handle(),
            final(self).handles() == old(self).handles(),
            final(self).held().len() == old(self).held().len(),
            old(self).holds(h) ==> 0 <= old(self).position(h) < old(self).held().len()
                && old(self).handles()[old(self).position(h)] == h.handle(),
            old(self).holds(h) ==> (r matches Some(p) && *p.0 == old(self).held()[old(self).position(h)]
                && p.1.key_view() == old(self).key_view() && final(self).held() == old(
                self,
            ).held().update(old(self).position(h), *final(p.0))),
            !old(self).holds(h) ==> r is None && final(self).held() == old(self).held(),
            final(self).all_tagged(old(self).key_view()) ==> final(self).wf(),
    {
        self.registry.get_mut(h)
    }

    /// Unlocks the value `value` names, which this key must hold, and drops
    /// its record.
    pub fn unlock(&mut self, value: Dropping<T>) -> (r: T::Unlocked)
        requires
            old(self).wf(),
            old(self).holds(&value),
        ensures
            final(self).wf(),
            final(self).key_view() == old(self).key_view(),
            final(self).next_handle() == old(self).next_handle(),
            0 <= old(self).position(&value) < old(self).held().len(),
            old(self).handles()[old(self).position(&value)] == value.handle(),
            final(self).handles() == old(self).handles().remove(old(self).position(&value)),
            forall|p: u64| #[trigger] final(self).handles().contains(p) <==> (old(self).handles().contains(p) && p != value.handle()),
            final(self).held() == old(self).held().remove(old(self).position(&value)),
            T::same(r, old(self).held()[old(self).position(&value)].contents()),
    {
        self.registry.unlock(value)
    }

    /// Ends this key: unlocks every value it still holds, newest first, and
    /// hands them back, one for each record, for the caller to release.
    pub fn close(self) -> (r: Vec<T::Unlocked>)
        requires
            self.wf(),
        ensures
            r@.len() == self.held().len(),
            forall|i: int|
                0 <= i < r@.len() ==> T::same(
                    #[trigger] r@[i],
                    self.held()[self.held().len() - 1 - i].contents(),
                ),
    {
        self.registry.close()
    }
}

/// Closing a key releases exactly one value for each value locked through it
/// and not unlocked, each once: the values come back newest first.
pub proof fn lemma_local_close_releases_each<T: Locked>(key: LocalDroppingKey<T>, released: Vec<T::Unlocked>)
    requires
        key.wf(),
        call_ensures(LocalDroppingKey::<T>::close, (key,), released),
    ensures
        released@.len() == key.held().len(),
        forall|i: int|
            0 <= i < key.held().len() ==> T::same(
                #[trigger] released@[i],
                key.held()[key.held().len() - 1 - i].contents(),
            ),
{
}


/// Closing a key releases exactly one value for each value locked through it
/// and not unlocked, each once: the values come back newest first.
pub proof fn lemma_shared_close_releases_each<T: Locked + Send + Sync>(key: DroppingKey<T>, released: Vec<T::Unlocked>)
    requires
        key.wf(),
        call_ensures(DroppingKey::<T>::close, (key,), released),
    ensures
        released@.len() == key.held().len(),
        forall|i: int|
            0 <= i < key.held().len() ==> T::same(
                #[trigger] released@[i],
                key.held()[key.held().len() - 1 - i].contents(),
            ),
{
}


/// The net number of records a run of steps adds: one for each lock (`true`)
/// and minus one for each unlock (`false`).
pub open spec fn balance(steps: Seq<bool>) -> int
    decreases steps.len(),
{
    if steps.len() == 0 {
        0
    } else {
        balance(steps.drop_last()) + if steps.last() {
            1int
        } else {
            -1int
        }
    }
}

/// A run made of locks only adds one record for each of its steps.
pub proof fn lemma_balance_of_locks(steps: Seq<bool>)
    requires
        forall|k: int| 0 <= k < steps.len() ==> #[trigger] steps[k],
    ensures
        balance(steps) == steps.len(),
    decreases steps.len(),
{
    if steps.len() > 0 {
        let front = steps.drop_last();
        assert forall|k: int| 0 <= k < front.len() implies #[trigger] front[k] by {
            assert(front[k] == steps[k]);
        }
        lemma_balance_of_locks(front);
        assert(steps[steps.len() - 1]);
    }
}

/// Record counts that start at zero and follow `steps` are, after `n` steps,
/// the balance of those steps.
proof fn lemma_counts_follow_balance(counts: Seq<int>, steps: Seq<bool>, n: int)
    requires
        counts.len() == steps.len() + 1,
        counts[0] == 0,
        forall|k: int|
            0 <= k < steps.len() ==> #[trigger] counts[k + 1] == counts[k] + if steps[k] {
                1int
            } else {
                -1int
            },
        0 <= n <= steps.len(),
    ensures
        counts[n] == balance(steps.subrange(0, n)),
    decreases n,
{
    if n > 0 {
        lemma_counts_follow_balance(counts, steps, n - 1);
        let sub = steps.subrange(0, n);
        assert(sub.drop_last() =~= steps.subrange(0, n - 1));
        assert(sub.last() == steps[n - 1]);
        assert(counts[(n - 1) + 1] == counts[n - 1] + if steps[n - 1] {
            1int
        } else {
            -1int
        });
    } else {
        assert(steps.subrange(0, 0).len() == 0);
    }
}

/// A key that starts with no records and then goes through a run of locks and
/// unlocks (each lock adding one record and each unlock removing one, as their
/// contracts state) holds, and releases when closed, exactly the balance of
/// the run: N values after N locks, none when every lock was unlocked.
pub proof fn lemma_local_close_after_steps<T: Locked>(
    states: Seq<LocalDroppingKey<T>>,
    steps: Seq<bool>,
    released: Vec<T::Unlocked>,
)
    requires
        states.len() == steps.len() + 1,
        states[0].held().len() == 0,
        forall|k: int|
            0 <= k < steps.len() ==> #[trigger] states[k + 1].held().len() == states[k].held().len()
                + if steps[k] {
                1int
            } else {
                -1int
            },
        states.last().wf(),
        call_ensures(LocalDroppingKey::<T>::close, (states.last(),), released),
    ensures
        states.last().held().len() == balance(steps),
        released@.len() == balance(steps),
{
    let counts = states.map_values(|k: LocalDroppingKey<T>| k.held().len() as int);
    assert forall|k: int| 0 <= k < steps.len() implies #[trigger] counts[k + 1] == counts[k] + if steps[k] {
        1int
    } else {
        -1int
    } by {
        assert(states[k + 1].held().len() == states[k].held().len() + if steps[k] {
            1int
        } else {
            -1int
        });
    }
    lemma_counts_follow_balance(counts, steps, steps.len() as int);
    assert(steps.subrange(0, steps.len() as int) =~= steps);
}

/// A key that starts with no records and then goes through a run of locks and
/// unlocks (each lock adding one record and each unlock removing one, as their
/// contracts state) holds, and releases when closed, exactly the balance of
/// the run: N values after N locks, none when every lock was unlocked.
pub proof fn lemma_shared_close_after_steps<T: Locked + Send + Sync>(
    states: Seq<DroppingKey<T>>,
    steps: Seq<bool>,
    released: Vec<T::Unlocked>,
)
    requires
        states.len() == steps.len() + 1,
        states[0].held().len() == 0,
        forall|k: int|
            0 <= k < steps.len() ==> #[trigger] states[k + 1].held().len() == states[k].held().len()
                + if steps[k] {
                1int
            } else {
                -1int
            },
        states.last().wf(),
        call_ensures(DroppingKey::<T>::close, (states.last(),), released),
    ensures
        states.last().held().len() == balance(steps),
        released@.len() == balance(steps),
{
    let counts = states.map_values(|k: DroppingKey<T>| k.held().len() as int);
    assert forall|k: int| 0 <= k < steps.len() implies #[trigger] counts[k + 1] == counts[k] + if steps[k] {
        1int
    } else {
        -1int
    } by {
        assert(states[k + 1].held().len() == states[k].held().len() + if steps[k] {
            1int
        } else {
            -1int
        });
    }
    lemma_counts_follow_balance(counts, steps, steps.len() as int);
    assert(steps.subrange(0, steps.len() as int) =~= steps);
}

} // verus!
