//! The kinds of locked values, one for each unlocked shape.
use crate::{check_id, Key, KeyId, Locked};
use std::mem::ManuallyDrop;
use std::rc::Rc;
use std::sync::Arc;
use vstd::prelude::*;
use vstd::utf8::encode_utf8;

verus! {

/// Relies on `DerefMut for ManuallyDrop`: the reference reaches the wrapped
/// value itself.
#[verifier::external_body]
fn manually_drop_mut<T>(m: &mut ManuallyDrop<T>) -> (r: &mut T)
    ensures
        *r == old(m)@,
        final(m)@ == *final(r),
{
    &mut **m
}

/// Relies on `Vec::capacity`: a vector can always hold at least as many
/// elements as it has.
#[verifier::external_body]
fn vec_capacity<T>(v: &Vec<T>) -> (r: usize)
    ensures
        r >= v@.len(),
{
    v.capacity()
}

/// Relies on `String::capacity`: a string's buffer can always hold at least
/// the bytes it has.
#[verifier::external_body]
fn string_capacity(s: &String) -> (r: usize)
    ensures
        r >= encode_utf8(s@).len(),
{
    s.capacity()
}

/// Relies on `String::as_mut_str`: the slice is the whole text of the string.
#[verifier::external_body]
fn string_as_mut_str(s: &mut String) -> (r: &mut str)
    ensures
        r@ == old(s)@,
        final(s)@ == final(r)@,
{
    s.as_mut_str()
}

/// Relies on `Rc::get_mut`: when it succeeds, the reference reaches the shared
/// value itself; when it fails, nothing changes.
#[verifier::external_body]
fn rc_get_mut<T>(rc: &mut Rc<T>) -> (r: Option<&mut T>)
    ensures
        r matches Some(v) ==> *v == **old(rc) && **final(rc) == *final(v),
        r is None ==> *final(rc) == *old(rc),
{
    Rc::get_mut(rc)
}

/// Relies on `Clone for Rc`: the new handle shares the same value.
#[verifier::external_body]
fn rc_clone<T>(rc: &Rc<T>) -> (r: Rc<T>)
    ensures
        r == *rc,
{
    Rc::clone(rc)
}

/// Relies on `Arc::get_mut`: when it succeeds, the reference reaches the
/// shared value itself; when it fails, nothing changes.
#[verifier::external_body]
fn arc_get_mut<T>(arc: &mut Arc<T>) -> (r: Option<&mut T>)
    ensures
        r matches Some(v) ==> *v == **old(arc) && **final(arc) == *final(v),
        r is None ==> *final(arc) == *old(arc),
{
    Arc::get_mut(arc)
}

/// Relies on `Clone for Arc`: the new handle shares the same value.
#[verifier::external_body]
fn arc_clone<T>(arc: &Arc<T>) -> (r: Arc<T>)
    ensures
        r == *arc,
{
    Arc::clone(arc)
}

/// A locked exclusive borrow.
#[derive(Debug)]
pub struct LockedMut<'a, T> {
    value: &'a mut T,
    key_id: KeyId,
}

impl<'a, T> Locked for LockedMut<'a, T> {
    type Unlocked = &'a mut T;

    closed spec fn stored_id(&self) -> KeyId {
        self.key_id
    }

    closed spec fn contents(&self) -> &'a mut T {
        self.value
    }

    open spec fn admits(value: &'a mut T) -> bool {
        true
    }

    open spec fn same(a: &'a mut T, b: &'a mut T) -> bool {
        *a == *b
    }

    proof fn lemma_same_transitive(a: &'a mut T, b: &'a mut T, c: &'a mut T) {
    }

    fn key_id(&self) -> (r: KeyId) {
        self.key_id
    }

    fn raw_lock<K: Key>(r: &'a mut T, key: &K) -> (l: Self) {
        let key_id = key.id();
        LockedMut { value: { r }, key_id }
    }

    fn raw_unlock<K: Key>(self, key: &K) -> (r: &'a mut T) {
        check_id(key.id(), self.key_id);
        { self.value }
    }
}

impl<'a, T> LockedMut<'a, T> {
    /// Shared access to the borrowed value, for a key with the right identity.
    pub fn get<'k, K: Key>(&'k self, key: &'k K) -> (r: &'k T)
        requires
            key.key_view() == self.stored_id(),
        ensures
            *r == *self.contents(),
    {
        check_id(key.id(), self.key_id);
        &*self.value
    }

    /// Exclusive access to the borrowed value, for a key with the right
    /// identity.
    pub fn get_mut<'k, K: Key>(&'k mut self, key: &'k K) -> (r: &'k mut T)
        requires
            key.key_view() == old(self).stored_id(),
        ensures
            final(self).stored_id() == old(self).stored_id(),
            *r == *old(self).contents(),
            *final(self).contents() == *final(r),
    {
        check_id(key.id(), self.key_id);
        &mut *self.value
    }

    /// Takes the locked value apart into its borrow and its identity.
    pub fn into_raw_parts(self) -> (r: (&'a mut T, KeyId))
        ensures
            LockedMut::<'a, T>::same(r.0, self.contents()),
            r.1 == self.stored_id(),
    {
        ({ self.value }, self.key_id)
    }

    /// Puts a locked value together from parts made by `into_raw_parts`.
    pub fn from_raw_parts(value: &'a mut T, key_id: KeyId) -> (r: Self)
        ensures
            LockedMut::<'a, T>::same(r.contents(), value),
            r.stored_id() == key_id,
    {
        LockedMut { value: { value }, key_id }
    }
}

/// A locked owned heap allocation.
#[derive(Debug)]
pub struct LockedBox<T> {
    value: ManuallyDrop<Box<T>>,
    key_id: KeyId,
}

impl<T> Locked for LockedBox<T> {
    type Unlocked = Box<T>;

    closed spec fn stored_id(&self) -> KeyId {
        self.key_id
    }

    closed spec fn contents(&self) -> Box<T> {
        self.value@
    }

    open spec fn admits(value: Box<T>) -> bool {
        true
    }

    open spec fn same(a: Box<T>, b: Box<T>) -> bool {
        a == b
    }

    proof fn lemma_same_transitive(a: Box<T>, b: Box<T>, c: Box<T>) {
    }

    fn key_id(&self) -> (r: KeyId) {
        self.key_id
    }

    fn raw_lock<K: Key>(value: Box<T>, key: &K) -> (r: Self) {
        let key_id = key.id();
        LockedBox { value: ManuallyDrop::new(value), key_id }
    }

    fn raw_unlock<K: Key>(self, key: &K) -> (r: Box<T>) {
        check_id(key.id(), self.key_id);
        ManuallyDrop::into_inner(self.value)
    }
}

impl<T> LockedBox<T> {
    /// Shared access to the boxed value, for a key with the right identity.
    pub fn get<'k, K: Key>(&'k self, key: &'k K) -> (r: &'k T)
        requires
            key.key_view() == self.stored_id(),
        ensures
            *r == *self.contents(),
    {
        check_id(key.id(), self.key_id);
        &**self.value
    }

    /// Exclusive access to the boxed value, for a key with the right identity.
    pub fn get_mut<'k, K: Key>(&'k mut self, key: &'k K) -> (r: &'k mut T)
        requires
            key.key_view() == old(self).stored_id(),
        ensures
            final(self).stored_id() == old(self).stored_id(),
            *r == *old(self).contents(),
            *final(self).contents() == *final(r),
    {
        check_id(key.id(), self.key_id);
        let b = manually_drop_mut(&mut self.value);
        &mut **b
    }

    /// Takes the locked value apart into its storage and its identity.
    pub fn into_raw_parts(self) -> (r: (ManuallyDrop<Box<T>>, KeyId))
        ensures
            r.0@ == self.contents(),
            r.1 == self.stored_id(),
    {
        (self.value, self.key_id)
    }

    /// Puts a locked value together from parts made by `into_raw_parts`.
    pub fn from_raw_parts(value: ManuallyDrop<Box<T>>, key_id: KeyId) -> (r: Self)
        ensures
            r.contents() == value@,
            r.stored_id() == key_id,
    {
        LockedBox { value, key_id }
    }
}

/// A locked growable buffer.
///
/// It holds the buffer itself, so unlocking gives back the very allocation
/// that was locked, with the length and capacity it had.
#[derive(Debug)]
pub struct LockedVec<T> {
    buf: ManuallyDrop<Vec<T>>,
    key_id: KeyId,
}

impl<T> Locked for LockedVec<T> {
    type Unlocked = Vec<T>;

    closed spec fn stored_id(&self) -> KeyId {
        self.key_id
    }

    closed spec fn contents(&self) -> Vec<T> {
        self.buf@
    }

    open spec fn admits(value: Vec<T>) -> bool {
        true
    }

    open spec fn same(a: Vec<T>, b: Vec<T>) -> bool {
        a == b
    }

    proof fn lemma_same_transitive(a: Vec<T>, b: Vec<T>, c: Vec<T>) {
    }

    fn key_id(&self) -> (r: KeyId) {
        self.key_id
    }

    fn raw_lock<K: Key>(value: Vec<T>, key: &K) -> (r: Self) {
        let key_id = key.id();
        LockedVec { buf: ManuallyDrop::new(value), key_id }
    }

    fn raw_unlock<K: Key>(self, key: &K) -> (r: Vec<T>) {
        check_id(key.id(), self.key_id);
        ManuallyDrop::into_inner(self.buf)
    }
}

impl<T> LockedVec<T> {
    /// The number of elements in the buffer.
    pub fn len(&self) -> (r: usize)
        ensures
            r == self.contents()@.len(),
    {
        self.buf.len()
    }

    /// The number of elements the buffer has room for.
    pub fn capacity(&self) -> (r: usize)
        ensures
            r >= self.contents()@.len(),
    {
        vec_capacity(&*self.buf)
    }

    /// The elements of the buffer, for a key with the right identity.
    pub fn get<'k, K: Key>(&'k self, key: &'k K) -> (r: &'k [T])
        requires
            key.key_view() == self.stored_id(),
        ensures
            r@ == self.contents()@,
    {
        check_id(key.id(), self.key_id);
        self.buf.as_slice()
    }

    /// Exclusive access to the elements of the buffer, for a key with the right
    /// identity. The length of the buffer cannot change through it.
    pub fn get_mut<'k, K: Key>(&'k mut self, key: &'k K) -> (r: &'k mut [T])
        requires
            key.key_view() == old(self).stored_id(),
        ensures
            final(self).stored_id() == old(self).stored_id(),
            r@ == old(self).contents()@,
            final(self).contents()@ == final(r)@,
    {
        check_id(key.id(), self.key_id);
        let v = manually_drop_mut(&mut self.buf);
        v.as_mut_slice()
    }

    /// Takes the locked value apart into its storage, length, capacity and
    /// identity.
    pub fn into_raw_parts(self) -> (r: (ManuallyDrop<Vec<T>>, usize, usize, KeyId))
        ensures
            r.0@ == self.contents(),
            r.1 == self.contents()@.len(),
            r.2 >= r.1,
            r.3 == self.stored_id(),
    {
        let len = self.buf.len();
        let capacity = vec_capacity(&*self.buf);
        (self.buf, len, capacity, self.key_id)
    }

    /// Puts a locked value together from storage and an identity.
    pub fn from_raw_parts(buf: ManuallyDrop<Vec<T>>, key_id: KeyId) -> (r: Self)
        ensures
            r.contents() == buf@,
            r.stored_id() == key_id,
    {
        LockedVec { buf, key_id }
    }
}

/// Locking a growable buffer and unlocking it with the same key gives back
/// the very buffer that was locked: the same elements, the same length, and
/// the same allocation with its capacity.
pub proof fn lemma_vec_shape_kept<T, K: Key>(
    vec: Vec<T>,
    key: &K,
    locked: LockedVec<T>,
    back: Vec<T>,
)
    requires
        call_ensures(LockedVec::<T>::raw_lock::<K>, (vec, key), locked),
        call_ensures(LockedVec::<T>::raw_unlock::<K>, (locked, key), back),
    ensures
        back == vec,
{
    crate::lemma_round_trip::<LockedVec<T>, K>(vec, key, locked, back);
}

/// A locked text buffer.
///
/// It holds the text's own buffer, so unlocking gives back the very
/// allocation that was locked, with the length and capacity it had.
#[derive(Debug)]
pub struct LockedString {
    text: ManuallyDrop<String>,
    key_id: KeyId,
}

impl Locked for LockedString {
    type Unlocked = String;

    closed spec fn stored_id(&self) -> KeyId {
        self.key_id
    }

    closed spec fn contents(&self) -> String {
        self.text@
    }

    open spec fn admits(value: String) -> bool {
        true
    }

    open spec fn same(a: String, b: String) -> bool {
        a == b
    }

    proof fn lemma_same_transitive(a: String, b: String, c: String) {
    }

    fn key_id(&self) -> (r: KeyId) {
        self.key_id
    }

    fn raw_lock<K: Key>(value: String, key: &K) -> (r: Self) {
        let key_id = key.id();
        LockedString { text: ManuallyDrop::new(value), key_id }
    }

    fn raw_unlock<K: Key>(self, key: &K) -> (r: String) {
        check_id(key.id(), self.key_id);
        ManuallyDrop::into_inner(self.text)
    }
}

impl LockedString {
    /// The length of the text in bytes.
    pub fn len(&self) -> (r: usize)
        ensures
            r == encode_utf8(self.contents()@).len() as usize,
    {
        self.text.as_str().len()
    }

    /// The number of bytes the text has room for.
    pub fn capacity(&self) -> (r: usize)
        ensures
            r >= encode_utf8(self.contents()@).len(),
    {
        string_capacity(&*self.text)
    }

    /// The text, for a key with the right identity.
    pub fn get<'k, K: Key>(&'k self, key: &'k K) -> (r: &'k str)
        requires
            key.key_view() == self.stored_id(),
        ensures
            r@ == self.contents()@,
    {
        check_id(key.id(), self.key_id);
        self.text.as_str()
    }

    /// Exclusive access to the text, for a key with the right identity.
    pub fn get_mut<'k, K: Key>(&'k mut self, key: &'k K) -> (r: &'k mut str)
        requires
            key.key_view() == old(self).stored_id(),
        ensures
            final(self).stored_id() == old(self).stored_id(),
            r@ == old(self).contents()@,
            final(self).contents()@ == final(r)@,
    {
        check_id(key.id(), self.key_id);
        let s = manually_drop_mut(&mut self.text);
        string_as_mut_str(s)
    }

    /// The UTF-8 bytes of the text, for a key with the right identity.
    pub fn get_bytes<'k, K: Key>(&'k self, key: &'k K) -> (r: &'k [u8])
        requires
            key.key_view() == self.stored_id(),
        ensures
            r@ == encode_utf8(self.contents()@),
    {
        check_id(key.id(), self.key_id);
        self.text.as_str().as_bytes()
    }

    /// Takes the locked value apart into its storage, length in bytes,
    /// capacity and identity.
    pub fn into_raw_parts(self) -> (r: (ManuallyDrop<String>, usize, usize, KeyId))
        ensures
            r.0@ == self.contents(),
            r.1 == encode_utf8(self.contents()@).len() as usize,
            r.2 >= encode_utf8(self.contents()@).len(),
            r.3 == self.stored_id(),
    {
        let len = self.text.as_str().len();
        let capacity = string_capacity(&*self.text);
        (self.text, len, capacity, self.key_id)
    }

    /// Puts a locked value together from storage and an identity.
    pub fn from_raw_parts(text: ManuallyDrop<String>, key_id: KeyId) -> (r: Self)
        ensures
            r.contents() == text@,
            r.stored_id() == key_id,
    {
        LockedString { text, key_id }
    }
}

/// Whether `bytes` is a NUL-terminated string: one zero byte at the end and
/// none before it.
pub open spec fn is_nul_terminated(bytes: Seq<u8>) -> bool {
    &&& bytes.len() > 0
    &&& bytes.last() == 0
    &&& forall|i: int| 0 <= i < bytes.len() - 1 ==> bytes[i] != 0
}

/// A locked NUL-terminated byte string, held as its bytes with the final zero.
#[derive(Debug)]
pub struct LockedCString {
    inner: LockedVec<u8>,
}

impl Locked for LockedCString {
    type Unlocked = Vec<u8>;

    closed spec fn stored_id(&self) -> KeyId {
        self.inner.stored_id()
    }

    closed spec fn contents(&self) -> Vec<u8> {
        self.inner.contents()
    }

    open spec fn admits(value: Vec<u8>) -> bool {
        is_nul_terminated(value@)
    }

    open spec fn same(a: Vec<u8>, b: Vec<u8>) -> bool {
        a == b
    }

    proof fn lemma_same_transitive(a: Vec<u8>, b: Vec<u8>, c: Vec<u8>) {
    }

    fn key_id(&self) -> (r: KeyId) {
        self.inner.key_id()
    }

    fn raw_lock<K: Key>(bytes: Vec<u8>, key: &K) -> (r: Self) {
        let inner = LockedVec::raw_lock(bytes, key);
        LockedCString { inner }
    }

    fn raw_unlock<K: Key>(self, key: &K) -> (r: Vec<u8>) {
        self.inner.raw_unlock(key)
    }
}

impl LockedCString {
    /// The bytes of the string with the final zero, for a key with the right
    /// identity.
    pub fn get<'k, K: Key>(&'k self, key: &'k K) -> (r: &'k [u8])
        requires
            key.key_view() == self.stored_id(),
        ensures
            r@ == self.contents()@,
    {
        self.inner.get(key)
    }

    /// Takes the locked value apart into its storage, length with the final
    /// zero, capacity and identity.
    pub fn into_raw_parts(self) -> (r: (ManuallyDrop<Vec<u8>>, usize, usize, KeyId))
        ensures
            r.0@ == self.contents(),
            r.1 == self.contents()@.len(),
            r.2 >= r.1,
            r.3 == self.stored_id(),
    {
        self.inner.into_raw_parts()
    }

    /// Puts a locked value together from storage that holds a NUL-terminated
    /// string and an identity.
    pub fn from_raw_parts(buf: ManuallyDrop<Vec<u8>>, key_id: KeyId) -> (r: Self)
        requires
            is_nul_terminated(buf@@),
        ensures
            r.contents() == buf@,
            r.stored_id() == key_id,
    {
        LockedCString { inner: LockedVec::from_raw_parts(buf, key_id) }
    }
}

/// A locked single-threaded handle to a shared value.
#[derive(Debug)]
pub struct LockedRc<T> {
    rc: ManuallyDrop<Rc<T>>,
    key_id: KeyId,
}

impl<T> Locked for LockedRc<T> {
    type Unlocked = Rc<T>;

    closed spec fn stored_id(&self) -> KeyId {
        self.key_id
    }

    closed spec fn contents(&self) -> Rc<T> {
        self.rc@
    }

    open spec fn admits(value: Rc<T>) -> bool {
        true
    }

    open spec fn same(a: Rc<T>, b: Rc<T>) -> bool {
        a == b
    }

    proof fn lemma_same_transitive(a: Rc<T>, b: Rc<T>, c: Rc<T>) {
    }

    fn key_id(&self) -> (r: KeyId) {
        self.key_id
    }

    fn raw_lock<K: Key>(value: Rc<T>, key: &K) -> (r: Self) {
        let key_id = key.id();
        LockedRc { rc: ManuallyDrop::new(value), key_id }
    }

    fn raw_unlock<K: Key>(self, key: &K) -> (r: Rc<T>) {
        check_id(key.id(), self.key_id);
        ManuallyDrop::into_inner(self.rc)
    }
}

impl<T> LockedRc<T> {
    /// Shared access to the shared value, for a key with the right identity.
    pub fn get<'k, K: Key>(&'k self, key: &'k K) -> (r: &'k T)
        requires
            key.key_view() == self.stored_id(),
        ensures
            *r == *self.contents(),
    {
        check_id(key.id(), self.key_id);
        &**self.rc
    }

    /// Exclusive access to the shared value, for a key with the right
    /// identity. It is `None` while any other handle to the value exists.
    pub fn get_mut<'k, K: Key>(&'k mut self, key: &'k K) -> (r: Option<&'k mut T>)
        requires
            key.key_view() == old(self).stored_id(),
        ensures
            final(self).stored_id() == old(self).stored_id(),
            r matches Some(v) ==> *v == *old(self).contents() && *final(self).contents() == *final(v),
            r is None ==> final(self).contents() == old(self).contents(),
    {
        check_id(key.id(), self.key_id);
        let rc = manually_drop_mut(&mut self.rc);
        rc_get_mut(rc)
    }

    /// A new handle to the shared value, for a key with the right identity.
    /// The value then has one more owner.
    pub fn clone<K: Key>(&self, key: &K) -> (r: Rc<T>)
        requires
            key.key_view() == self.stored_id(),
        ensures
            r == self.contents(),
    {
        check_id(key.id(), self.key_id);
        rc_clone(&*self.rc)
    }
}

/// A locked thread-safe handle to a shared value.
#[derive(Debug)]
pub struct LockedArc<T> {
    rc: ManuallyDrop<Arc<T>>,
    key_id: KeyId,
}

impl<T> Locked for LockedArc<T> {
    type Unlocked = Arc<T>;

    closed spec fn stored_id(&self) -> KeyId {
        self.key_id
    }

    closed spec fn contents(&self) -> Arc<T> {
        self.rc@
    }

    open spec fn admits(value: Arc<T>) -> bool {
        true
    }

    open spec fn same(a: Arc<T>, b: Arc<T>) -> bool {
        a == b
    }

    proof fn lemma_same_transitive(a: Arc<T>, b: Arc<T>, c: Arc<T>) {
    }

    fn key_id(&self) -> (r: KeyId) {
        self.key_id
    }

    fn raw_lock<K: Key>(value: Arc<T>, key: &K) -> (r: Self) {
        let key_id = key.id();
        LockedArc { rc: ManuallyDrop::new(value), key_id }
    }

    fn raw_unlock<K: Key>(self, key: &K) -> (r: Arc<T>) {
        check_id(key.id(), self.key_id);
        ManuallyDrop::into_inner(self.rc)
    }
}

impl<T> LockedArc<T> {
    /// Shared access to the shared value, for a key with the right identity.
    pub fn get<'k, K: Key>(&'k self, key: &'k K) -> (r: &'k T)
        requires
            key.key_view() == self.stored_id(),
        ensures
            *r == *self.contents(),
    {
        check_id(key.id(), self.key_id);
        &**self.rc
    }

    /// Exclusive access to the shared value, for a key with the right
    /// identity. It is `None` while any other handle to the value exists.
    pub fn get_mut<'k, K: Key>(&'k mut self, key: &'k K) -> (r: Option<&'k mut T>)
        requires
            key.key_view() == old(self).stored_id(),
        ensures
            final(self).stored_id() == old(self).stored_id(),
            r matches Some(v) ==> *v == *old(self).contents() && *final(self).contents() == *final(v),
            r is None ==> final(self).contents() == old(self).contents(),
    {
        check_id(key.id(), self.key_id);
        let rc = manually_drop_mut(&mut self.rc);
        arc_get_mut(rc)
    }

    /// A new handle to the shared value, for a key with the right identity.
    /// The value then has one more owner.
    pub fn clone<K: Key>(&self, key: &K) -> (r: Arc<T>)
        requires
            key.key_view() == self.stored_id(),
        ensures
            r == self.contents(),
    {
        check_id(key.id(), self.key_id);
        arc_clone(&*self.rc)
    }
}

} // verus!
