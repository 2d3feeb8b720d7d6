//! A growable buffer that doubles its capacity whenever it is full.
//!
//! The buffer counts its capacity itself: nothing is pushed beyond it, and
//! it grows from none to one place and from then on to twice what it had.
//! The places themselves are kept in a `Vec`.

use vstd::layout::size_of;
use vstd::prelude::*;

verus! {

/// The capacity that a buffer of capacity `cap` has after it has grown.
pub open spec fn grown_capacity(cap: nat) -> nat {
    if cap == 0 {
        1
    } else {
        2 * cap
    }
}

/// A buffer of capacity `cap` can grow: what it then holds places for still
/// fits the largest allocation there is.
pub open spec fn can_grow<T>(cap: nat) -> bool {
    grown_capacity(cap) * size_of::<T>() <= isize::MAX
}

/// A growable buffer of items of a type that takes up room.
pub struct Vector<T> {
    buf: Vec<T>,
    cap: usize,
}

impl<T> View for Vector<T> {
    type V = Seq<T>;

    /// The items in the buffer, the oldest first.
    closed spec fn view(&self) -> Seq<T> {
        self.buf@
    }
}

impl<T> Vector<T> {
    /// The buffer holds no more items than it has places for, and its items
    /// take up room.
    pub closed spec fn wf(&self) -> bool {
        &&& self.buf@.len() <= self.cap
        &&& size_of::<T>() != 0
    }

    /// The number of items that the buffer has places for.
    pub closed spec fn capacity(&self) -> nat {
        self.cap as nat
    }

    /// An empty buffer without any place. Items of no size are not taken.
    pub fn new() -> (v: Self)
        requires
            size_of::<T>() != 0,
        ensures
            v.wf(),
            v@ == Seq::<T>::empty(),
            v.capacity() == 0,
    {
        Vector { buf: Vec::new(), cap: 0 }
    }

    /// Gives the buffer one place if it has none, and twice as many as it
    /// has otherwise. The items stay as they are.
    pub fn grow(&mut self)
        requires
            old(self).wf(),
            can_grow::<T>(old(self).capacity()),
        ensures
            final(self).wf(),
            final(self)@ == old(self)@,
            final(self).capacity() == grown_capacity(old(self).capacity()),
    {
        proof {
            let cap = self.cap as nat;
            let size = size_of::<T>();
            assert(grown_capacity(cap) <= grown_capacity(cap) * size) by (nonlinear_arith)
                requires
                    size >= 1,
            ;
        }
        let new_cap: usize = if self.cap == 0 {
            1
        } else {
            self.cap * 2
        };
        self.buf.reserve(new_cap - self.buf.len());
        self.cap = new_cap;
    }

    /// Puts `val` behind the items of the buffer, which grows first if it is
    /// full.
    pub fn push(&mut self, val: T)
        requires
            old(self).wf(),
            old(self)@.len() == old(self).capacity() ==> can_grow::<T>(old(self).capacity()),
        ensures
            final(self).wf(),
            final(self)@ == old(self)@.push(val),
            final(self).capacity() == if old(self)@.len() == old(self).capacity() {
                grown_capacity(old(self).capacity())
            } else {
                old(self).capacity()
            },
    {
        if self.buf.len() == self.cap {
            self.grow();
        }
        self.buf.push(val);
    }

    /// Takes the newest item out of the buffer, if there is one. The
    /// capacity stays.
    pub fn pop(&mut self) -> (res: Option<T>)
        requires
            old(self).wf(),
        ensures
            final(self).wf(),
            old(self)@.len() == 0 ==> res == None::<T> && final(self)@ == old(self)@,
            old(self)@.len() > 0 ==> res == Some(old(self)@.last()),
            old(self)@.len() > 0 ==> final(self)@ == old(self)@.drop_last(),
            final(self).capacity() == old(self).capacity(),
    {
        self.buf.pop()
    }
}

} // verus!
