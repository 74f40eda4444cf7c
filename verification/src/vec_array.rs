//! A vector with a fixed capacity `N`: pushing into a full one is
//! rejected instead of growing the storage.

use vstd::prelude::*;

verus! {

/// A bounded vector holding at most `N` elements.
pub struct VecArray<T, const N: usize> {
    data: Vec<T>,
}

impl<T, const N: usize> View for VecArray<T, N> {
    type V = Seq<T>;

    closed spec fn view(&self) -> Seq<T> {
        self.data@
    }
}

impl<T, const N: usize> VecArray<T, N> {
    /// An empty bounded vector.
    pub fn new() -> (r: Self)
        ensures
            r@ == Seq::<T>::empty(),
    {
        VecArray { data: Vec::new() }
    }

    /// Append `data` at the end; a full vector is left unchanged and
    /// the element is rejected.
    pub fn push(&mut self, data: T) -> (r: Result<(), String>)
        ensures
            old(self)@.len() < N ==> r is Ok && final(self)@ == old(self)@.push(data),
            old(self)@.len() >= N ==> r is Err && final(self)@ == old(self)@,
    {
        if self.data.len() < N {
            self.data.push(data);
            Ok(())
        } else {
            Err("VecArray is full".to_owned())
        }
    }

    /// Remove and return the last element, if any.
    pub fn pop(&mut self) -> (r: Option<T>)
        ensures
            old(self)@.len() == 0 ==> r is None && final(self)@ == old(self)@,
            old(self)@.len() > 0 ==> r == Some(old(self)@[old(self)@.len() - 1]) && final(self)@
                == old(self)@.take(old(self)@.len() - 1),
    {
        proof {
            if old(self)@.len() > 0 {
                assert(old(self)@.take(old(self)@.len() - 1) =~= old(self)@.subrange(
                    0,
                    old(self)@.len() - 1,
                ));
            }
        }
        self.data.pop()
    }

    /// Keep only the first `new_len` elements; a larger request leaves
    /// the vector unchanged.
    pub fn truncate(&mut self, new_len: usize)
        ensures
            new_len < old(self)@.len() ==> final(self)@ == old(self)@.take(new_len as int),
            new_len >= old(self)@.len() ==> final(self)@ == old(self)@,
    {
        proof {
            if new_len < self@.len() {
                assert(self@.take(new_len as int) =~= self@.subrange(0, new_len as int));
            }
        }
        self.data.truncate(new_len);
    }

    /// Drop every element.
    pub fn clear(&mut self)
        ensures
            final(self)@ == Seq::<T>::empty(),
    {
        self.truncate(0);
        proof {
            assert(old(self)@.take(0) =~= Seq::<T>::empty());
        }
    }

    /// How many elements are held.
    pub fn len(&self) -> (n: usize)
        ensures
            n == self@.len(),
    {
        self.data.len()
    }

    /// Read the element at `i`.
    pub fn get(&self, i: usize) -> (r: &T)
        requires
            i < self@.len(),
        ensures
            *r == self@[i as int],
    {
        &self.data[i]
    }
}

} // verus!
