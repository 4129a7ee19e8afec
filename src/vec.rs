//! A growable vector whose clones share one reference-counted buffer until
//! one of them is mutated.
use std::sync::Arc;
use vstd::prelude::*;

verus! {

/// Relies on `Arc::get_mut`: a mutable borrow of the inner value exactly
/// when no other handle to it exists; otherwise nothing.
#[verifier::external_body]
fn exclusive<T>(a: &mut Arc<Vec<T>>) -> (r: Option<&mut Vec<T>>)
    ensures
        match r {
            Some(v) => *v == **old(a) && **final(a) == *final(v),
            None => *final(a) == *old(a),
        },
{
    Arc::get_mut(a)
}

/// Relies on `Arc::clone`: a new handle to the same allocation, with the
/// reference count raised by one and nothing copied.
#[verifier::external_body]
fn share<T>(a: &Arc<Vec<T>>) -> (r: Arc<Vec<T>>)
    ensures
        r == *a,
{
    Arc::clone(a)
}

/// A clone-on-write vector.
///
/// An empty vector made without capacity holds no allocation. Otherwise the
/// elements live in a reference-counted buffer; `clone` only adds a handle
/// to it. A mutation changes the buffer in place when this vector is its
/// only owner, and otherwise first copies the elements it keeps into a new
/// buffer of its own, so that the other owners go on seeing what they saw.
pub struct EcoVec<T> {
    buf: Option<Arc<Vec<T>>>,
}

impl<T> View for EcoVec<T> {
    type V = Seq<T>;

    closed spec fn view(&self) -> Seq<T> {
        match self.buf {
            Some(a) => a@,
            None => Seq::empty(),
        }
    }
}

impl<T> EcoVec<T> {
    /// Whether the vector holds a heap buffer.
    pub closed spec fn allocated(&self) -> bool {
        self.buf is Some
    }
}

impl<T: Copy> EcoVec<T> {
    /// An empty vector without an allocation.
    pub fn new() -> (r: Self)
        ensures
            r@ == Seq::<T>::empty(),
            !r.allocated(),
    {
        EcoVec { buf: None }
    }

    /// An empty vector with room for `capacity` elements; none is
    /// allocated when `capacity` is zero.
    pub fn with_capacity(capacity: usize) -> (r: Self)
        ensures
            r@ == Seq::<T>::empty(),
            r.allocated() == (capacity > 0),
    {
        if capacity == 0 {
            EcoVec { buf: None }
        } else {
            EcoVec { buf: Some(Arc::new(Vec::with_capacity(capacity))) }
        }
    }

    /// The number of elements.
    pub fn len(&self) -> (r: usize)
        ensures
            r == self@.len(),
    {
        match &self.buf {
            Some(a) => a.len(),
            None => 0,
        }
    }

    /// Whether there are no elements.
    pub fn is_empty(&self) -> (r: bool)
        ensures
            r == (self@.len() == 0),
    {
        self.len() == 0
    }

    /// The elements, borrowed.
    pub fn as_slice(&self) -> (r: &[T])
        ensures
            r@ == self@,
    {
        match &self.buf {
            Some(a) => a.as_slice(),
            None => &[],
        }
    }

    /// The first `n` elements of `src` copied into a fresh buffer with room
    /// for `capacity` elements.
    fn copy_prefix(src: &Vec<T>, n: usize, capacity: usize) -> (r: Vec<T>)
        requires
            n <= src@.len(),
        ensures
            r@ == src@.take(n as int),
    {
        let mut r: Vec<T> = Vec::with_capacity(capacity);
        let mut i: usize = 0;
        while i < n
            invariant
                i <= n <= src@.len(),
                r@ == src@.take(i as int),
            decreases n - i,
        {
            r.push(src[i]);
            i += 1;
            assert(r@ =~= src@.take(i as int));
        }
        r
    }

    /// The first `keep` elements copied into a new buffer with room for
    /// at least `needed` elements, and at least twice the current length.
    fn copied(&self, keep: usize, needed: usize) -> (r: Vec<T>)
        requires
            keep <= self@.len(),
        ensures
            r@ == self@.take(keep as int),
    {
        match &self.buf {
            None => {
                let r = Vec::with_capacity(needed);
                assert(r@ =~= self@.take(keep as int));
                r
            },
            Some(a) => {
                let len = a.len();
                let doubled = if len <= usize::MAX / 2 { 2 * len } else { usize::MAX };
                let capacity = if needed > doubled { needed } else { doubled };
                Self::copy_prefix(a, keep, capacity)
            },
        }
    }

    /// Appends `item` at the end.
    pub fn push(&mut self, item: T)
        ensures
            final(self)@ == old(self)@.push(item),
    {
        if let Some(a) = &mut self.buf {
            if let Some(v) = exclusive(a) {
                v.push(item);
                return;
            }
        }
        let len = self.len();
        let needed = if len < usize::MAX { len + 1 } else { len };
        let mut v = self.copied(len, needed);
        proof {
            assert(old(self)@.take(len as int) =~= old(self)@);
        }
        v.push(item);
        self.buf = Some(Arc::new(v));
    }

    /// Appends the elements of `items` at the end, in order.
    pub fn extend_from_slice(&mut self, items: &[T])
        ensures
            final(self)@ == old(self)@ + items@,
    {
        if items.len() == 0 {
            proof {
                assert(old(self)@ + items@ =~= old(self)@);
            }
            return;
        }
        if let Some(a) = &mut self.buf {
            if let Some(v) = exclusive(a) {
                Self::append(v, items);
                return;
            }
        }
        let len = self.len();
        let needed = if len <= usize::MAX - items.len() { len + items.len() } else { usize::MAX };
        let mut v = self.copied(len, needed);
        proof {
            assert(old(self)@.take(len as int) =~= old(self)@);
        }
        Self::append(&mut v, items);
        self.buf = Some(Arc::new(v));
    }

    /// Appends the elements of `items` to `v`, in order.
    fn append(v: &mut Vec<T>, items: &[T])
        ensures
            final(v)@ == old(v)@ + items@,
    {
        let mut i: usize = 0;
        while i < items.len()
            invariant
                i <= items@.len(),
                v@ == old(v)@ + items@.take(i as int),
            decreases items@.len() - i,
        {
            v.push(items[i]);
            i += 1;
            assert(v@ =~= old(v)@ + items@.take(i as int));
        }
        proof {
            assert(items@.take(i as int) =~= items@);
        }
    }

    /// Shortens the vector to its first `new_len` elements; nothing happens
    /// when it is not longer than that.
    pub fn truncate(&mut self, new_len: usize)
        ensures
            final(self)@ == if new_len < old(self)@.len() {
                old(self)@.take(new_len as int)
            } else {
                old(self)@
            },
    {
        let len = self.len();
        if new_len >= len {
            return;
        }
        if let Some(a) = &mut self.buf {
            if let Some(v) = exclusive(a) {
                v.truncate(new_len);
                assert(v@ =~= old(self)@.take(new_len as int));
                return;
            }
        }
        let v = self.copied(new_len, new_len);
        self.buf = Some(Arc::new(v));
    }

    /// Removes every element.
    pub fn clear(&mut self)
        ensures
            final(self)@ == Seq::<T>::empty(),
    {
        self.truncate(0);
        proof {
            assert(old(self)@.take(0) =~= Seq::<T>::empty());
        }
    }
}

impl<T: Copy> Clone for EcoVec<T> {
    /// Another handle to the same buffer; no element is copied.
    fn clone(&self) -> (r: Self)
        ensures
            r@ == self@,
            r.allocated() == self.allocated(),
    {
        match &self.buf {
            Some(a) => EcoVec { buf: Some(share(a)) },
            None => EcoVec { buf: None },
        }
    }
}

} // verus!
