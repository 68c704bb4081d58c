//! The staging form of the text engine: a red-black key tree beside one
//! gap-buffer leaf that byte operations fill and read until the full tree
//! of leaves takes over.

use vstd::prelude::*;
use vstd::multiset::Multiset;
use crate::leaf::{Leaf, RBError};
use crate::rbt::RBTree;

verus! {

/// A red-black tree of keys with a staging leaf for byte content: bytes
/// go to and come from the staging leaf; keys order the tree.
#[derive(Debug)]
pub struct RBRope {
    tree: RBTree,
    buf: Option<Leaf>,
}

impl RBRope {
    /// The keys the tree holds.
    pub closed spec fn keys(&self) -> Multiset<u64> {
        self.tree@
    }

    /// The bytes the staging leaf holds.
    pub closed spec fn view(&self) -> Seq<u8> {
        match self.buf {
            None => Seq::empty(),
            Some(l) => l@,
        }
    }

    /// The key tree's red-black invariant on its own.
    pub closed spec fn spec_tree_valid(&self) -> bool {
        self.tree.wf()
    }

    /// The tree invariant and the leaf invariant.
    pub closed spec fn wf(&self) -> bool {
        self.tree.wf() && match self.buf {
            None => true,
            Some(l) => l.wf(),
        }
    }

    pub fn new() -> (r: RBRope)
        ensures
            r.wf(),
            r.keys() == Multiset::<u64>::empty(),
            r@ =~= Seq::<u8>::empty(),
    {
        RBRope { tree: RBTree::new(), buf: None }
    }

    /// Insert a key into the tree.
    pub fn insert(&mut self, key: u64) -> (r: Result<(), RBError>)
        requires
            old(self).wf(),
        ensures
            r is Ok,
            final(self).wf(),
            final(self).keys() == old(self).keys().insert(key),
            final(self)@ == old(self)@,
    {
        let res = self.tree.insert(key);
        match res {
            Ok(_) => Ok(()),
            Err(_) => {
                proof {
                    assert(false);
                }
                Err(RBError::TreeFull)
            },
        }
    }

    /// Look a key up.
    pub fn search(&self, key: u64) -> (r: Option<u64>)
        ensures
            r == if self.keys().count(key) > 0 {
                Some(key)
            } else {
                None::<u64>
            },
    {
        self.tree.search(key)
    }

    /// Bytes held in the staging leaf.
    pub fn len(&self) -> (r: usize)
        requires
            self.wf(),
        ensures
            r == self@.len(),
    {
        match &self.buf {
            None => 0,
            Some(l) => l.byte_len(),
        }
    }

    /// Make sure the staging leaf exists, then copy bytes into it at
    /// `off`, as many as its gap can hold.
    pub fn insert_bytes(&mut self, off: usize, data: &[u8]) -> (r: Result<usize, RBError>)
        requires
            old(self).wf(),
        ensures
            final(self).wf(),
            final(self).keys() == old(self).keys(),
            match r {
                Ok(n) => {
                    &&& off <= old(self)@.len()
                    &&& n == vstd::math::min(
                        crate::leaf::LEAF_CAPACITY - old(self)@.len(),
                        data@.len() as int,
                    ) || (data@.len() == 0 && n == 0)
                    &&& final(self)@ == old(self)@.take(off as int) + data@.take(n as int) + old(
                        self,
                    )@.skip(off as int)
                },
                Err(RBError::InvalidOffset) => {
                    &&& off > old(self)@.len()
                    &&& final(self)@ == old(self)@
                },
                Err(_) => {
                    &&& off <= old(self)@.len()
                    &&& data@.len() > 0
                    &&& old(self)@.len() == crate::leaf::LEAF_CAPACITY
                    &&& final(self)@ == old(self)@
                },
            },
    {
        if self.buf.is_none() {
            let fresh = Leaf::new();
            proof {
                assert(fresh@ =~= self@);
            }
            self.buf = Some(fresh);
        }
        let mut l = self.buf.take().unwrap();
        let r = l.insert(off, data);
        self.buf = Some(l);
        r
    }

    /// Copy bytes out of the staging leaf starting at `off`.
    pub fn read_bytes(&self, off: usize, out: &mut Vec<u8>) -> (r: Result<usize, RBError>)
        requires
            self.wf(),
        ensures
            match r {
                Ok(n) => {
                    &&& off <= self@.len()
                    &&& n == vstd::math::min(old(out)@.len() as int, self@.len() - off)
                    &&& final(out)@ == self@.subrange(off as int, off + n) + old(out)@.skip(
                        n as int,
                    )
                },
                Err(e) => {
                    &&& e == RBError::InvalidOffset
                    &&& off > self@.len()
                    &&& *final(out) == *old(out)
                },
            },
    {
        match &self.buf {
            None => {
                if off > 0 {
                    return Err(RBError::InvalidOffset);
                }
                proof {
                    assert(self@.subrange(0, 0) + out@.skip(0) =~= out@);
                }
                Ok(0)
            },
            Some(l) => l.read_into(off, out),
        }
    }

    /// Check the red-black colour and height properties of the key tree at
    /// run time: the result is exactly the tree invariant, which every
    /// operation of this interface maintains.
    pub fn is_valid(&self) -> (r: bool)
        ensures
            r == self.spec_tree_valid(),
            self.wf() ==> r,
    {
        self.tree.is_valid()
    }
}

} // verus!
