use keylock::{
    check_id, try_check_id, DroppingKey, ForgettingKey, Key, KeyId, KeyIdCounter, KeyMismatch, LocalDroppingKey,
    Locked, LockedArc, LockedBox, LockedCString, LockedMut, LockedRc, LockedString, LockedVec,
};
use std::cell::RefCell;
use std::rc::Rc;
use std::sync::Arc;

fn two_keys() -> (ForgettingKey, ForgettingKey) {
    let mut counter = KeyIdCounter::new();
    let a = ForgettingKey::new(&mut counter);
    let b = ForgettingKey::new(&mut counter);
    (a, b)
}

/// Records its number in a shared log when it is dropped.
struct DropLog {
    n: i32,
    log: Rc<RefCell<Vec<i32>>>,
}

impl Drop for DropLog {
    fn drop(&mut self) {
        self.log.borrow_mut().push(self.n);
    }
}

#[test]
fn minted_ids_differ() {
    let mut counter = KeyIdCounter::new();
    let a = KeyId::new(&mut counter);
    let b = KeyId::new(&mut counter);
    assert_ne!(a, b);
    assert_eq!(a, a);
}

#[test]
fn check_id_reports_both_identities() {
    let (a, b) = two_keys();
    check_id(a.id(), a.id());
    assert_eq!(try_check_id(a.id(), a.id()), Ok(()));
    assert_eq!(
        try_check_id(b.id(), a.id()),
        Err(KeyMismatch { expected: a.id(), found: b.id() })
    );
}

#[test]
fn fresh_counter_is_not_exhausted() {
    let mut counter = KeyIdCounter::new();
    assert!(!counter.is_exhausted());
    let _ = KeyId::new(&mut counter);
    assert!(!counter.is_exhausted());
}

#[test]
fn scenario_text_round_trip() {
    let mut counter = KeyIdCounter::new();
    let mut key = ForgettingKey::new(&mut counter);
    let locked: LockedString = key.lock(String::from("hello"));
    assert_eq!(locked.get(&key), "hello");
    assert_eq!(locked.get_bytes(&key), b"hello");
    assert_eq!(locked.len(), 5);
    let back = key.unlock(locked);
    assert_eq!(back, "hello");
}

#[test]
fn scenario_bookkeeping_key_releases_each_once() {
    let log = Rc::new(RefCell::new(Vec::new()));
    let mut counter = KeyIdCounter::new();
    let mut key: LocalDroppingKey<LockedBox<DropLog>> = LocalDroppingKey::new(&mut counter);
    for n in 1..=3 {
        let _handle = key.lock(Box::new(DropLog { n, log: log.clone() }));
    }
    assert!(log.borrow().is_empty());
    let released = key.close();
    assert_eq!(released.len(), 3);
    drop(released);
    let mut seen = log.borrow().clone();
    seen.sort();
    assert_eq!(seen, vec![1, 2, 3]);
}

#[test]
fn scenario_read_with_other_key_fails() {
    let (a, b) = two_keys();
    let locked: LockedBox<i32> = a.lock(Box::new(7));
    assert_eq!(
        try_check_id(b.id(), locked.key_id()),
        Err(KeyMismatch { expected: a.id(), found: b.id() })
    );
    assert_eq!(try_check_id(a.id(), locked.key_id()), Ok(()));
    assert_eq!(*locked.get(&a), 7);
}

#[test]
fn round_trip_box() {
    let (mut a, _) = two_keys();
    let locked: LockedBox<String> = a.lock(Box::new(String::from("boxed")));
    assert_eq!(locked.key_id(), a.id());
    let back = a.unlock(locked);
    assert_eq!(*back, "boxed");
}

#[test]
fn round_trip_mut_borrow() {
    let (mut a, _) = two_keys();
    let mut x = 10;
    let mut locked: LockedMut<i32> = a.lock(&mut x);
    *locked.get_mut(&a) += 5;
    assert_eq!(*locked.get(&a), 15);
    let back = a.unlock(locked);
    *back += 1;
    assert_eq!(x, 16);
}

#[test]
fn round_trip_vec_keeps_shape() {
    let (mut a, _) = two_keys();
    let mut v: Vec<u32> = Vec::with_capacity(16);
    v.extend([1, 2, 3]);
    let cap = v.capacity();
    let mut locked: LockedVec<u32> = a.lock(v);
    assert_eq!(locked.len(), 3);
    assert_eq!(locked.capacity(), cap);
    locked.get_mut(&a)[1] = 20;
    assert_eq!(locked.get(&a), &[1, 20, 3]);
    let back = a.unlock(locked);
    assert_eq!(back, vec![1, 20, 3]);
    assert_eq!(back.len(), 3);
    assert_eq!(back.capacity(), cap);
}

#[test]
fn round_trip_string_keeps_shape() {
    let (mut a, _) = two_keys();
    let mut s = String::with_capacity(32);
    s.push_str("héllo");
    let cap = s.capacity();
    let mut locked: LockedString = a.lock(s);
    assert_eq!(locked.len(), 6);
    assert_eq!(locked.capacity(), cap);
    locked.get_mut(&a).make_ascii_uppercase();
    let back = a.unlock(locked);
    assert_eq!(back, "HéLLO");
    assert_eq!(back.capacity(), cap);
}

#[test]
fn round_trip_cstring() {
    let (mut a, b) = two_keys();
    let locked: LockedCString = a.lock(b"hi\0".to_vec());
    assert_eq!(locked.get(&a), b"hi\0");
    assert!(try_check_id(b.id(), locked.key_id()).is_err());
    let back = a.unlock(locked);
    assert_eq!(back, b"hi\0".to_vec());
}

#[test]
fn round_trip_rc() {
    let (mut a, _) = two_keys();
    let rc = Rc::new(5);
    let locked: LockedRc<i32> = a.lock(rc.clone());
    assert_eq!(*locked.get(&a), 5);
    let back = a.unlock(locked);
    assert!(Rc::ptr_eq(&back, &rc));
    assert_eq!(Rc::strong_count(&rc), 2);
}

#[test]
fn round_trip_arc() {
    let (mut a, _) = two_keys();
    let arc = Arc::new(String::from("shared"));
    let locked: LockedArc<String> = a.lock(arc.clone());
    assert_eq!(locked.get(&a), "shared");
    let back = a.unlock(locked);
    assert!(Arc::ptr_eq(&back, &arc));
}

#[test]
fn rc_clone_adds_owner_and_get_mut_needs_sole_owner() {
    let (mut a, _) = two_keys();
    let mut locked: LockedRc<i32> = a.lock(Rc::new(1));
    assert_eq!(*locked.get_mut(&a).unwrap(), 1);
    *locked.get_mut(&a).unwrap() = 2;
    let other = locked.clone(&a);
    assert_eq!(Rc::strong_count(&other), 2);
    assert_eq!(*other, 2);
    assert!(locked.get_mut(&a).is_none());
    drop(other);
    assert!(locked.get_mut(&a).is_some());
    let back = a.unlock(locked);
    assert_eq!(Rc::strong_count(&back), 1);
}

#[test]
fn arc_clone_adds_owner_and_get_mut_needs_sole_owner() {
    let (mut a, _) = two_keys();
    let mut locked: LockedArc<i32> = a.lock(Arc::new(1));
    let other = locked.clone(&a);
    assert_eq!(Arc::strong_count(&other), 2);
    assert!(locked.get_mut(&a).is_none());
    drop(other);
    *locked.get_mut(&a).unwrap() = 9;
    let back = a.unlock(locked);
    assert_eq!(*back, 9);
    assert_eq!(Arc::strong_count(&back), 1);
}

#[test]
fn every_locked_value_refuses_other_key() {
    let (a, b) = two_keys();
    let mismatch = Err(KeyMismatch { expected: a.id(), found: b.id() });

    let mut x = 1;
    let m: LockedMut<i32> = a.lock(&mut x);
    assert_eq!(try_check_id(b.id(), m.key_id()), mismatch);
    let bx: LockedBox<i32> = a.lock(Box::new(1));
    assert_eq!(try_check_id(b.id(), bx.key_id()), mismatch);
    let v: LockedVec<i32> = a.lock(vec![1]);
    assert_eq!(try_check_id(b.id(), v.key_id()), mismatch);
    let s: LockedString = a.lock(String::from("x"));
    assert_eq!(try_check_id(b.id(), s.key_id()), mismatch);
    let c: LockedCString = a.lock(b"x\0".to_vec());
    assert_eq!(try_check_id(b.id(), c.key_id()), mismatch);
    let rc: LockedRc<i32> = a.lock(Rc::new(1));
    assert_eq!(try_check_id(b.id(), rc.key_id()), mismatch);
    let arc: LockedArc<i32> = a.lock(Arc::new(1));
    assert_eq!(try_check_id(b.id(), arc.key_id()), mismatch);
}


#[test]
fn explicit_unlock_leaves_nothing_to_release() {
    let log = Rc::new(RefCell::new(Vec::new()));
    let mut counter = KeyIdCounter::new();
    let mut key: LocalDroppingKey<LockedBox<DropLog>> = LocalDroppingKey::new(&mut counter);
    let handles: Vec<_> = (1..=3)
        .map(|n| key.lock(Box::new(DropLog { n, log: log.clone() })))
        .collect();
    for h in handles {
        let back = key.unlock(h);
        drop(back);
    }
    assert_eq!(log.borrow().len(), 3);
    let released = key.close();
    assert!(released.is_empty());
    assert_eq!(log.borrow().len(), 3);
}

#[test]
fn bookkeeping_key_gives_access_and_unlocks() {
    let mut counter = KeyIdCounter::new();
    let mut key: LocalDroppingKey<LockedVec<u8>> = LocalDroppingKey::new(&mut counter);
    let h1 = key.lock(vec![1, 2]);
    let h2 = key.lock(vec![3]);
    assert_eq!(key.get(&h1).unwrap().get(&key), &[1, 2]);
    assert_eq!(key.get(&h2).unwrap().get(&key), &[3]);
    assert_eq!(key.unlock(h1), vec![1, 2]);
    let rest = key.close();
    assert_eq!(rest, vec![vec![3]]);
}

#[test]
fn bookkeeping_key_refuses_foreign_handle() {
    let mut counter = KeyIdCounter::new();
    let mut k1: LocalDroppingKey<LockedBox<i32>> = LocalDroppingKey::new(&mut counter);
    let mut k2: LocalDroppingKey<LockedBox<i32>> = LocalDroppingKey::new(&mut counter);
    let h = k1.lock(Box::new(4));
    let _ = k2.lock(Box::new(5));
    assert!(k2.get(&h).is_none());
    assert!(k2.get_mut(&h).is_none());
    assert_eq!(*k1.unlock(h), 4);
    assert_eq!(k2.close().len(), 1);
    assert!(k1.close().is_empty());
}

#[test]
fn bookkeeping_key_reports_room_for_locks() {
    let mut counter = KeyIdCounter::new();
    let mut key: LocalDroppingKey<LockedBox<i32>> = LocalDroppingKey::new(&mut counter);
    assert!(key.can_lock());
    let h = key.lock(Box::new(1));
    assert!(key.can_lock());
    assert_eq!(*key.unlock(h), 1);
}

#[test]
fn close_releases_newest_first() {
    let mut counter = KeyIdCounter::new();
    let mut key: DroppingKey<LockedArc<i32>> = DroppingKey::new(&mut counter);
    let shared: Vec<Arc<i32>> = (1..=3).map(Arc::new).collect();
    for a in &shared {
        let _ = key.lock(a.clone());
    }
    assert!(shared.iter().all(|a| Arc::strong_count(a) == 2));
    let released = key.close();
    let values: Vec<i32> = released.iter().map(|a| **a).collect();
    assert_eq!(values, vec![3, 2, 1]);
    drop(released);
    assert!(shared.iter().all(|a| Arc::strong_count(a) == 1));
}

fn is_send_and_sync<T: Send + Sync>(_: &T) -> bool {
    true
}

#[test]
fn thread_safe_key_can_be_shared() {
    let mut counter = KeyIdCounter::new();
    let mut key: DroppingKey<LockedBox<u64>> = DroppingKey::new(&mut counter);
    let h = key.lock(Box::new(11));
    assert!(is_send_and_sync(&key));
    assert_eq!(*key.get(&h).unwrap().get(&key), 11);
    assert_eq!(*key.unlock(h), 11);
    assert!(key.close().is_empty());
}

#[test]
fn raw_parts_round_trip() {
    let (mut a, _) = two_keys();
    let locked: LockedVec<u8> = a.lock(vec![9, 8]);
    let (buf, len, cap, id) = locked.into_raw_parts();
    assert_eq!(len, 2);
    assert!(cap >= 2);
    assert_eq!(id, a.id());
    let locked = LockedVec::from_raw_parts(buf, id);
    assert_eq!(a.unlock(locked), vec![9, 8]);

    let locked: LockedBox<i32> = a.lock(Box::new(1));
    let (b, id) = locked.into_raw_parts();
    let locked = LockedBox::from_raw_parts(b, id);
    assert_eq!(*a.unlock(locked), 1);
}

#[test]
fn bookkeeping_key_gives_exclusive_access() {
    let mut counter = KeyIdCounter::new();
    let mut key: LocalDroppingKey<LockedBox<i32>> = LocalDroppingKey::new(&mut counter);
    let h = key.lock(Box::new(1));
    let id = key.id();
    {
        let (locked, opener) = key.get_mut(&h).unwrap();
        assert_eq!(opener.id(), id);
        *locked.get_mut(opener) = 41;
    }
    assert_eq!(*key.get(&h).unwrap().get(&key), 41);
    assert_eq!(*key.unlock(h), 41);
}

#[test]
fn bookkeeping_key_refuses_foreign_handle_for_exclusive_access() {
    let mut counter = KeyIdCounter::new();
    let mut k1: DroppingKey<LockedBox<i32>> = DroppingKey::new(&mut counter);
    let mut k2: DroppingKey<LockedBox<i32>> = DroppingKey::new(&mut counter);
    let h = k1.lock(Box::new(1));
    assert!(k2.get_mut(&h).is_none());
    assert!(k1.get_mut(&h).is_some());
    assert_eq!(k1.close().len(), 1);
    assert!(k2.close().is_empty());
}

#[test]
fn locked_values_carry_their_key_identity() {
    let mut counter = KeyIdCounter::new();
    let a = ForgettingKey::new(&mut counter);
    let mut dk: LocalDroppingKey<LockedString> = LocalDroppingKey::new(&mut counter);
    assert_ne!(a.id(), dk.id());
    let h = dk.lock(String::from("k"));
    let locked = dk.get(&h).unwrap();
    assert_eq!(locked.key_id(), dk.id());
    assert!(try_check_id(a.id(), locked.key_id()).is_err());
    assert_eq!(dk.close(), vec![String::from("k")]);
}
