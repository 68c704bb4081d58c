//! A vector that keeps up to `STACK_CAPACITY` elements in its fixed-size
//! store and spills to a growing heap store beyond that; a memory shape
//! tuned for the text engine's per-leaf bookkeeping.

use vstd::prelude::*;

verus! {

/// How many elements the fixed store holds before the vector spills.
pub const STACK_CAPACITY: usize = 2048;

/// A two-stage vector: a bounded fixed store first, a growing heap store
/// once that is full.  `using_heap` tells which stage is live.
#[derive(Debug)]
pub struct TinyVec<T> {
    stack: Vec<T>,
    heap: Vec<T>,
    /// Whether the vector has spilled to its heap store.
    pub using_heap: bool,
    cap: usize,
}

impl<T> TinyVec<T> {
    /// Whether the vector has spilled to its heap store.
    pub closed spec fn spec_on_heap(&self) -> bool {
        self.using_heap
    }

    /// The elements, in order.
    pub closed spec fn view(&self) -> Seq<T> {
        if self.using_heap {
            self.heap@
        } else {
            self.stack@
        }
    }

    /// The capacity the live store offers.
    pub closed spec fn spec_capacity(&self) -> int {
        if self.using_heap {
            self.cap as int
        } else {
            STACK_CAPACITY as int
        }
    }

    /// The store invariant: the fixed store never exceeds its bound, the
    /// heap store never exceeds its tracked capacity, the dormant store is
    /// empty, and a spilled vector is past the fixed bound's worth of room.
    pub closed spec fn wf(&self) -> bool {
        if self.using_heap {
            self.stack@.len() == 0 && self.heap@.len() <= self.cap && self.cap
                >= STACK_CAPACITY as int
        } else {
            self.stack@.len() <= STACK_CAPACITY as int && self.heap@.len() == 0
        }
    }

    /// Creates a new empty vector on its fixed store.
    pub fn new() -> (r: TinyVec<T>)
        ensures
            r.wf(),
            r@ =~= Seq::<T>::empty(),
            !r.spec_on_heap(),
            r.spec_capacity() == STACK_CAPACITY as int,
    {
        TinyVec { stack: Vec::new(), heap: Vec::new(), using_heap: false, cap: 0 }
    }

    /// Returns the current number of elements.
    pub fn len(&self) -> (r: usize)
        ensures
            r == self@.len(),
    {
        if self.using_heap {
            self.heap.len()
        } else {
            self.stack.len()
        }
    }

    /// Returns true if the vector is empty.
    pub fn is_empty(&self) -> (r: bool)
        ensures
            r == (self@.len() == 0),
    {
        if self.using_heap {
            self.heap.len() == 0
        } else {
            self.stack.len() == 0
        }
    }

    /// Returns the current capacity: the fixed bound until the vector
    /// spills, the heap store's capacity afterwards.
    pub fn capacity(&self) -> (r: usize)
        ensures
            r == self.spec_capacity(),
    {
        if self.using_heap {
            self.cap
        } else {
            STACK_CAPACITY
        }
    }

    /// Move every element from the fixed store to a heap store with twice
    /// the room.
    fn switch_to_heap(&mut self)
        requires
            old(self).wf(),
            !old(self).using_heap,
            old(self).stack@.len() == STACK_CAPACITY as int,
        ensures
            final(self).wf(),
            final(self)@ == old(self)@,
            final(self).spec_on_heap(),
            final(self).spec_capacity() == 2 * STACK_CAPACITY as int,
    {
        let mut new_heap: Vec<T> = Vec::new();
        new_heap.append(&mut self.stack);
        proof {
            assert(new_heap@ =~= old(self)@);
        }
        self.heap = new_heap;
        self.using_heap = true;
        self.cap = STACK_CAPACITY * 2;
    }

    /// Pushes an element to the end of the vector, spilling to the heap
    /// store when the fixed store is full and doubling the heap capacity
    /// when that fills in turn.
    pub fn push(&mut self, value: T)
        requires
            old(self).wf(),
            old(self)@.len() < usize::MAX,
        ensures
            final(self).wf(),
            final(self)@ == old(self)@.push(value),
            final(self).spec_capacity() >= final(self)@.len(),
    {
        if !self.using_heap && self.stack.len() >= STACK_CAPACITY {
            self.switch_to_heap();
        }
        if self.using_heap {
            if self.heap.len() >= self.cap {
                self.cap = if self.cap <= usize::MAX / 2 {
                    self.cap * 2
                } else {
                    usize::MAX
                };
            }
            self.heap.push(value);
        } else {
            self.stack.push(value);
        }
    }

    /// Pops an element from the end of the vector.
    pub fn pop(&mut self) -> (r: Option<T>)
        requires
            old(self).wf(),
        ensures
            final(self).wf(),
            match r {
                Some(v) => {
                    &&& old(self)@.len() > 0
                    &&& v == old(self)@.last()
                    &&& final(self)@ == old(self)@.drop_last()
                },
                None => {
                    &&& old(self)@.len() == 0
                    &&& final(self)@ == old(self)@
                },
            },
    {
        if self.using_heap {
            self.heap.pop()
        } else {
            self.stack.pop()
        }
    }

    /// Returns a reference to the element at the given index.
    pub fn get(&self, index: usize) -> (r: Option<&T>)
        ensures
            match r {
                Some(v) => index < self@.len() && *v == self@[index as int],
                None => index >= self@.len(),
            },
    {
        if self.using_heap {
            if index < self.heap.len() {
                Some(&self.heap[index])
            } else {
                None
            }
        } else {
            if index < self.stack.len() {
                Some(&self.stack[index])
            } else {
                None
            }
        }
    }

    /// Overwrite the element at the given index.
    pub fn set(&mut self, index: usize, value: T)
        requires
            old(self).wf(),
            index < old(self)@.len(),
        ensures
            final(self).wf(),
            final(self)@ == old(self)@.update(index as int, value),
            final(self).spec_on_heap() == old(self).spec_on_heap(),
            final(self).spec_capacity() == old(self).spec_capacity(),
    {
        if self.using_heap {
            self.heap.set(index, value);
        } else {
            self.stack.set(index, value);
        }
    }
}

impl<T> Default for TinyVec<T> {
    fn default() -> (r: TinyVec<T>)
        ensures
            r.wf(),
            r@ =~= Seq::<T>::empty(),
            !r.spec_on_heap(),
    {
        TinyVec::new()
    }
}

} // verus!
