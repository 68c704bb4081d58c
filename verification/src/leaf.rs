//! Fixed-capacity gap-buffer leaf: a byte buffer with one movable gap and a
//! sorted index of the newline offsets of its logical (gap-collapsed) view.

use vstd::prelude::*;

verus! {

/// Maximum bytes a leaf buffer can hold.
pub const LEAF_CAPACITY: usize = 2048;

/// Soft fill target for freshly built leaves (80% of capacity), so edits
/// have room before a split is needed.
pub const LEAF_USABLE: usize = (LEAF_CAPACITY * 80) / 100;

/// Errors of the storage engine.
#[derive(Debug, Clone, Copy, PartialEq, Eq, Structural)]
pub enum RBError {
    /// The tree arena is exhausted (fatal for the buffer).
    TreeFull,
    /// An offset lies outside the addressed content.
    InvalidOffset,
    /// A leaf gap cannot hold the full input (internal; callers split).
    InsufficientSpace,
}

/// The number of 0x0A bytes in a byte sequence.
pub open spec fn count_nl(s: Seq<u8>) -> nat
    decreases s.len(),
{
    if s.len() == 0 {
        0
    } else {
        count_nl(s.drop_last()) + if s.last() == 10u8 { 1nat } else { 0nat }
    }
}

/// Newlines add up over concatenation.
pub proof fn lemma_count_nl_concat(a: Seq<u8>, b: Seq<u8>)
    ensures
        count_nl(a + b) == count_nl(a) + count_nl(b),
    decreases b.len(),
{
    if b.len() == 0 {
        assert(a + b =~= a);
    } else {
        lemma_count_nl_concat(a, b.drop_last());
        assert((a + b).drop_last() =~= a + b.drop_last());
        assert((a + b).last() == b.last());
    }
}

/// A sequence holds no more newlines than bytes.
pub proof fn lemma_count_nl_le_len(s: Seq<u8>)
    ensures
        count_nl(s) <= s.len(),
    decreases s.len(),
{
    if s.len() > 0 {
        lemma_count_nl_le_len(s.drop_last());
    }
}

/// The offsets of the 0x0A bytes of a byte sequence, in increasing order.
pub open spec fn nl_offsets(s: Seq<u8>) -> Seq<int>
    decreases s.len(),
{
    if s.len() == 0 {
        Seq::empty()
    } else {
        let pre = nl_offsets(s.drop_last());
        if s.last() == 10u8 {
            pre.push(s.len() - 1)
        } else {
            pre
        }
    }
}

pub proof fn lemma_nl_offsets_len(s: Seq<u8>)
    ensures
        nl_offsets(s).len() == count_nl(s),
    decreases s.len(),
{
    if s.len() > 0 {
        lemma_nl_offsets_len(s.drop_last());
    }
}

/// Every listed offset is in bounds, holds a newline, the list is strictly
/// increasing, and every newline of the sequence is listed.
pub proof fn lemma_nl_offsets_exact(s: Seq<u8>)
    ensures
        forall|k: int| 0 <= k < nl_offsets(s).len() ==> 0 <= #[trigger] nl_offsets(s)[k] < s.len(),
        forall|k: int| 0 <= k < nl_offsets(s).len() ==> s[#[trigger] nl_offsets(s)[k]] == 10u8,
        forall|k: int, j: int|
            0 <= k < j < nl_offsets(s).len() ==> #[trigger] nl_offsets(s)[k] < #[trigger] nl_offsets(
                s,
            )[j],
        forall|i: int| 0 <= i < s.len() && s[i] == 10u8 ==> nl_offsets(s).contains(i),
    decreases s.len(),
{
    if s.len() > 0 {
        let pre = s.drop_last();
        lemma_nl_offsets_exact(pre);
        assert(forall|i: int| 0 <= i < pre.len() ==> pre[i] == s[i]);
        if s.last() == 10u8 {
            assert forall|i: int| 0 <= i < s.len() && s[i] == 10u8 implies nl_offsets(s).contains(
                i,
            ) by {
                if i < s.len() - 1 {
                    assert(nl_offsets(pre).contains(i));
                    let k = choose|k: int| 0 <= k < nl_offsets(pre).len() && nl_offsets(pre)[k] == i;
                    assert(nl_offsets(s)[k] == i);
                } else {
                    assert(nl_offsets(s)[nl_offsets(s).len() - 1] == i);
                }
            }
        } else {
            assert forall|i: int| 0 <= i < s.len() && s[i] == 10u8 implies nl_offsets(s).contains(
                i,
            ) by {
                assert(i != s.len() - 1);
                assert(nl_offsets(pre).contains(i));
            }
        }
    }
}

/// Newline offsets concatenate: the left part's offsets stay, the right
/// part's offsets shift by the left part's length.
pub proof fn lemma_nl_offsets_concat(a: Seq<u8>, b: Seq<u8>)
    ensures
        nl_offsets(a + b).len() == nl_offsets(a).len() + nl_offsets(b).len(),
        forall|k: int|
            0 <= k < nl_offsets(a).len() ==> #[trigger] nl_offsets(a + b)[k] == nl_offsets(a)[k],
        forall|k: int|
            0 <= k < nl_offsets(b).len() ==> #[trigger] nl_offsets(a + b)[nl_offsets(a).len() + k]
                == nl_offsets(b)[k] + a.len(),
    decreases b.len(),
{
    if b.len() == 0 {
        assert(a + b =~= a);
    } else {
        lemma_nl_offsets_concat(a, b.drop_last());
        assert((a + b).drop_last() =~= a + b.drop_last());
        assert((a + b).last() == b.last());
    }
}

/// A leaf: `LEAF_CAPACITY` bytes with an uninitialised gap `[gap_lo, gap_hi)`.
/// The logical content is the buffer with the gap cut out.
#[derive(Debug, Clone, PartialEq)]
pub struct Leaf {
    buf: Vec<u8>,
    gap_lo: u16,
    gap_hi: u16,
    nl_idx: Vec<u16>,
}

impl Leaf {
    /// The logical (gap-collapsed) content.
    pub closed spec fn view(&self) -> Seq<u8> {
        self.buf@.subrange(0, self.gap_lo as int) + self.buf@.subrange(
            self.gap_hi as int,
            LEAF_CAPACITY as int,
        )
    }

    pub closed spec fn spec_gap_lo(&self) -> int {
        self.gap_lo as int
    }

    pub closed spec fn spec_gap_hi(&self) -> int {
        self.gap_hi as int
    }

    pub closed spec fn spec_nl_idx(&self) -> Seq<int> {
        self.nl_idx@.map_values(|v: u16| v as int)
    }

    /// The buffer shape is sound: full capacity, gap bounds ordered.
    pub closed spec fn buf_wf(&self) -> bool {
        &&& self.buf@.len() == LEAF_CAPACITY
        &&& self.gap_lo <= self.gap_hi
        &&& self.gap_hi as int <= LEAF_CAPACITY as int
    }

    /// The newline index lists exactly the newline offsets of the view.
    pub closed spec fn nl_wf(&self) -> bool {
        self.spec_nl_idx() == nl_offsets(self@)
    }

    pub open spec fn wf(&self) -> bool {
        self.buf_wf() && self.nl_wf()
    }

    /// The leaf invariant, spelled out: gap bounds are ordered and within
    /// capacity; logical length plus gap size equals the capacity; the
    /// newline index holds exactly the newline offsets, strictly increasing.
    pub proof fn lemma_leaf_invariant(&self)
        requires
            self.wf(),
        ensures
            0 <= self.spec_gap_lo() <= self.spec_gap_hi() <= LEAF_CAPACITY as int,
            self@.len() + (self.spec_gap_hi() - self.spec_gap_lo()) == LEAF_CAPACITY as int,
            self.spec_nl_idx().len() == count_nl(self@),
            forall|k: int|
                0 <= k < self.spec_nl_idx().len() ==> 0 <= #[trigger] self.spec_nl_idx()[k]
                    < self@.len(),
            forall|k: int|
                0 <= k < self.spec_nl_idx().len() ==> self@[#[trigger] self.spec_nl_idx()[k]]
                    == 10u8,
            forall|k: int, j: int|
                0 <= k < j < self.spec_nl_idx().len() ==> #[trigger] self.spec_nl_idx()[k]
                    < #[trigger] self.spec_nl_idx()[j],
            forall|i: int| 0 <= i < self@.len() && self@[i] == 10u8 ==> self.spec_nl_idx().contains(i),
    {
        lemma_nl_offsets_len(self@);
        lemma_nl_offsets_exact(self@);
    }

    pub fn new() -> (r: Leaf)
        ensures
            r.wf(),
            r@ =~= Seq::<u8>::empty(),
            r.spec_gap_lo() == 0,
    {
        let l = Leaf { buf: vec![0u8; LEAF_CAPACITY], gap_lo: 0, gap_hi: LEAF_CAPACITY as u16, nl_idx: Vec::new() };
        proof {
            assert(l@ =~= Seq::<u8>::empty());
            assert(l.spec_nl_idx() =~= nl_offsets(l@));
        }
        l
    }

    /// Size of the gap; the room left in this leaf.
    pub fn gap_size(&self) -> (r: usize)
        requires
            self.buf_wf(),
        ensures
            r == self.spec_gap_hi() - self.spec_gap_lo(),
            r == LEAF_CAPACITY - self@.len(),
    {
        self.gap_hi as usize - self.gap_lo as usize
    }

    /// Logical length.
    pub fn byte_len(&self) -> (r: usize)
        requires
            self.buf_wf(),
        ensures
            r == self@.len(),
    {
        self.gap_lo as usize + (LEAF_CAPACITY - self.gap_hi as usize)
    }

    /// Number of newlines in the logical content.
    pub fn newline_count(&self) -> (r: usize)
        requires
            self.wf(),
        ensures
            r == count_nl(self@),
    {
        proof {
            lemma_nl_offsets_len(self@);
        }
        self.nl_idx.len()
    }

    /// The logical offset of the `k`-th newline of this leaf.
    pub fn newline_offset(&self, k: usize) -> (r: usize)
        requires
            self.wf(),
            k < count_nl(self@),
        ensures
            r == nl_offsets(self@)[k as int],
            r < self@.len(),
    {
        proof {
            lemma_nl_offsets_len(self@);
            lemma_nl_offsets_exact(self@);
            assert(nl_offsets(self@)[k as int] < self@.len());
            assert(self.spec_nl_idx()[k as int] == nl_offsets(self@)[k as int]);
        }
        self.nl_idx[k] as usize
    }

    /// Where the gap starts: the count of logical bytes stored before it.
    pub fn gap_start(&self) -> (r: usize)
        requires
            self.buf_wf(),
        ensures
            r == self.spec_gap_lo(),
            r <= self@.len(),
    {
        self.gap_lo as usize
    }

    /// The byte at logical offset `i`, read across the gap.
    fn byte_at(&self, i: usize) -> (r: u8)
        requires
            self.buf_wf(),
            i < self@.len(),
        ensures
            r == self@[i as int],
    {
        let gl = self.gap_lo as usize;
        if i < gl {
            self.buf[i]
        } else {
            let gap: usize = self.gap_hi as usize - gl;
            self.buf[i + gap]
        }
    }

    /// Rebuild the newline index from the current content.
    fn fix_nl_index(&mut self)
        requires
            old(self).buf_wf(),
        ensures
            final(self).wf(),
            final(self)@ == old(self)@,
            final(self).spec_gap_lo() == old(self).spec_gap_lo(),
            final(self).spec_gap_hi() == old(self).spec_gap_hi(),
    {
        let len = self.byte_len();
        let mut nl: Vec<u16> = Vec::new();
        let mut i: usize = 0;
        while i < len
            invariant
                self == old(self),
                self.buf_wf(),
                len == self@.len(),
                i <= len,
                nl@.map_values(|v: u16| v as int) == nl_offsets(self@.take(i as int)),
            decreases len - i,
        {
            let ghost prefix = self@.take(i as int);
            if self.byte_at(i) == 10 {
                nl.push(i as u16);
            }
            proof {
                let next = self@.take(i + 1 as int);
                assert(next.drop_last() =~= prefix);
                assert(next.last() == self@[i as int]);
                if self@[i as int] == 10u8 {
                    assert(nl@.map_values(|v: u16| v as int) =~= nl_offsets(prefix).push(i as int));
                }
            }
            i += 1;
        }
        proof {
            assert(self@.take(len as int) =~= self@);
        }
        self.nl_idx = nl;
    }

    /// Move the gap so that it starts at logical offset `off`.  The logical
    /// content does not change; calling it again with the same offset is a
    /// no-op.
    pub fn move_gap_to(&mut self, off: usize)
        requires
            old(self).wf(),
            off <= old(self)@.len(),
        ensures
            final(self).wf(),
            final(self)@ == old(self)@,
            final(self).spec_gap_lo() == off,
    {
        let len = self.byte_len();
        let gap = self.gap_size();
        let mut nb: Vec<u8> = Vec::new();
        let mut i: usize = 0;
        while i < off
            invariant
                self == old(self),
                self.buf_wf(),
                len == self@.len(),
                gap == LEAF_CAPACITY - len,
                off <= len,
                i <= off,
                nb@ == self@.take(i as int),
            decreases off - i,
        {
            nb.push(self.byte_at(i));
            proof {
                assert(nb@ =~= self@.take(i + 1 as int));
            }
            i += 1;
        }
        let mut j: usize = 0;
        while j < gap
            invariant
                self == old(self),
                self.buf_wf(),
                len == self@.len(),
                gap == LEAF_CAPACITY - len,
                off <= len,
                j <= gap,
                nb@.len() == off + j,
                nb@.take(off as int) == self@.take(off as int),
            decreases gap - j,
        {
            nb.push(0);
            proof {
                assert(nb@.take(off as int) =~= self@.take(off as int));
            }
            j += 1;
        }
        let mut k: usize = off;
        while k < len
            invariant
                self == old(self),
                self.buf_wf(),
                len == self@.len(),
                gap == LEAF_CAPACITY - len,
                off <= k <= len,
                nb@.len() == gap + k,
                nb@.take(off as int) == self@.take(off as int),
                nb@.subrange(off + gap, nb@.len() as int) == self@.subrange(off as int, k as int),
            decreases len - k,
        {
            nb.push(self.byte_at(k));
            proof {
                assert(nb@.take(off as int) =~= self@.take(off as int));
                assert(nb@.subrange(off + gap, nb@.len() as int) =~= self@.subrange(
                    off as int,
                    k + 1 as int,
                ));
            }
            k += 1;
        }
        let ghost old_view = self@;
        self.buf = nb;
        self.gap_lo = off as u16;
        self.gap_hi = (off + gap) as u16;
        proof {
            assert(self@ =~= old_view);
            assert(self.spec_nl_idx() == nl_offsets(self@));
        }
    }

    /// Insert `data` at logical offset `off`: move the gap there and copy as
    /// many bytes as the gap can hold.  Returns the number of bytes copied
    /// (possibly short); the caller splits the leaf when it is.
    pub fn insert(&mut self, off: usize, data: &[u8]) -> (r: Result<usize, RBError>)
        requires
            old(self).wf(),
        ensures
            final(self).wf(),
            match r {
                Ok(n) => {
                    &&& off <= old(self)@.len()
                    &&& n == vstd::math::min(
                        LEAF_CAPACITY - old(self)@.len(),
                        data@.len() as int,
                    ) || (data@.len() == 0 && n == 0)
                    &&& final(self)@ == old(self)@.take(off as int) + data@.take(n as int) + old(
                        self,
                    )@.skip(off as int)
                },
                Err(RBError::InvalidOffset) => {
                    &&& off > old(self)@.len()
                    &&& *final(self) == *old(self)
                },
                Err(_) => {
                    &&& off <= old(self)@.len()
                    &&& data@.len() > 0
                    &&& old(self)@.len() == LEAF_CAPACITY
                    &&& *final(self) == *old(self)
                },
            },
    {
        let len = self.byte_len();
        if off > len {
            return Err(RBError::InvalidOffset);
        }
        if data.len() == 0 {
            proof {
                assert(self@.take(off as int) + data@.take(0) + self@.skip(off as int) =~= self@);
            }
            return Ok(0);
        }
        let avail = self.gap_size();
        if avail == 0 {
            return Err(RBError::InsufficientSpace);
        }
        let to_copy: usize = if avail < data.len() {
            avail
        } else {
            data.len()
        };
        self.move_gap_to(off);
        let ghost mid_view = self@;
        let gl = self.gap_lo as usize;
        let mut k: usize = 0;
        while k < to_copy
            invariant
                self.buf_wf(),
                self@ == mid_view,
                self.spec_nl_idx() == nl_offsets(mid_view),
                gl == self.spec_gap_lo(),
                gl == off,
                off <= mid_view.len(),
                to_copy <= self.spec_gap_hi() - gl,
                to_copy <= data@.len(),
                k <= to_copy,
                self.buf@.subrange(gl as int, gl + k) == data@.take(k as int),
            decreases to_copy - k,
        {
            let ghost before = self.buf@;
            self.buf.set(gl + k, data[k]);
            proof {
                assert(self@ =~= mid_view);
                assert(self.buf@.subrange(gl as int, gl + k + 1) =~= data@.take(k + 1 as int));
            }
            k += 1;
        }
        self.gap_lo = (gl + to_copy) as u16;
        proof {
            assert(self@ =~= mid_view.take(off as int) + data@.take(to_copy as int) + mid_view.skip(
                off as int,
            ));
        }
        self.fix_nl_index();
        Ok(to_copy)
    }

    /// Delete up to `len` bytes starting at logical offset `off` by widening
    /// the gap.  Deleting at `off == len()` is a no-op.
    pub fn delete(&mut self, off: usize, len: usize) -> (r: Result<usize, RBError>)
        requires
            old(self).wf(),
        ensures
            final(self).wf(),
            match r {
                Ok(n) => {
                    &&& off <= old(self)@.len()
                    &&& n == vstd::math::min(len as int, old(self)@.len() - off)
                    &&& final(self)@ == old(self)@.take(off as int) + old(self)@.skip(off + n)
                },
                Err(e) => {
                    &&& e == RBError::InvalidOffset
                    &&& off > old(self)@.len()
                    &&& *final(self) == *old(self)
                },
            },
    {
        let cur_len = self.byte_len();
        if off > cur_len {
            return Err(RBError::InvalidOffset);
        }
        if len == 0 {
            proof {
                assert(self@.take(off as int) + self@.skip(off as int) =~= self@);
            }
            return Ok(0);
        }
        let actual: usize = if len < cur_len - off {
            len
        } else {
            cur_len - off
        };
        if actual == 0 {
            proof {
                assert(self@.take(off as int) + self@.skip(off as int) =~= self@);
            }
            return Ok(0);
        }
        self.move_gap_to(off);
        let ghost mid_view = self@;
        self.gap_hi = (self.gap_hi as usize + actual) as u16;
        proof {
            assert(self@ =~= mid_view.take(off as int) + mid_view.skip(off + actual));
        }
        self.fix_nl_index();
        Ok(actual)
    }

    /// The bytes of the logical range `[a, b)`, as a fresh vector.
    pub fn read_range(&self, a: usize, b: usize) -> (v: Vec<u8>)
        requires
            self.wf(),
            a <= b <= self@.len(),
        ensures
            v@ == self@.subrange(a as int, b as int),
    {
        let mut v: Vec<u8> = Vec::new();
        let mut k: usize = a;
        while k < b
            invariant
                self.wf(),
                a <= k <= b <= self@.len(),
                v@ == self@.subrange(a as int, k as int),
            decreases b - k,
        {
            v.push(self.byte_at(k));
            proof {
                assert(v@ =~= self@.subrange(a as int, k + 1 as int));
            }
            k += 1;
        }
        v
    }

    /// Split this leaf at logical offset `at`: it keeps `[0, at)`, and a
    /// fresh leaf holding `[at, len)` is returned.
    pub fn split_off(&mut self, at: usize) -> (r: Leaf)
        requires
            old(self).wf(),
            at <= old(self)@.len(),
        ensures
            final(self).wf(),
            r.wf(),
            final(self)@ == old(self)@.take(at as int),
            r@ == old(self)@.skip(at as int),
    {
        let len = self.byte_len();
        let tail_bytes = self.read_range(at, len);
        let del = self.delete(at, len - at);
        match del {
            Err(e) => {
                proof {
                    assert(false);
                }
            },
            Ok(_) => {},
        }
        proof {
            assert(self@ =~= old(self)@.take(at as int));
        }
        let mut other = Leaf::new();
        let ins = other.insert(0, tail_bytes.as_slice());
        match ins {
            Err(e) => {
                proof {
                    assert(false);
                }
            },
            Ok(_) => {},
        }
        proof {
            assert(other@ =~= old(self)@.skip(at as int));
        }
        other
    }

    /// Copy up to `out.len()` bytes starting at logical `off` into the head
    /// of `out`, transparently skipping the gap.  Reading at `off == len()`
    /// copies nothing.
    pub fn read_into(&self, off: usize, out: &mut Vec<u8>) -> (r: Result<usize, RBError>)
        requires
            self.wf(),
        ensures
            match r {
                Ok(n) => {
                    &&& off <= self@.len()
                    &&& n == vstd::math::min(old(out)@.len() as int, self@.len() - off)
                    &&& final(out)@ == self@.subrange(off as int, off + n) + old(out)@.skip(n as int)
                },
                Err(e) => {
                    &&& e == RBError::InvalidOffset
                    &&& off > self@.len()
                    &&& *final(out) == *old(out)
                },
            },
    {
        let cur_len = self.byte_len();
        if off > cur_len {
            return Err(RBError::InvalidOffset);
        }
        let want: usize = if out.len() < cur_len - off {
            out.len()
        } else {
            cur_len - off
        };
        let mut k: usize = 0;
        while k < want
            invariant
                self.wf(),
                cur_len == self@.len(),
                off + want <= cur_len,
                want <= out@.len(),
                k <= want,
                out@.len() == old(out)@.len(),
                forall|j: int| 0 <= j < k ==> out@[j] == self@[off + j],
                forall|j: int| k <= j < out@.len() ==> out@[j] == old(out)@[j],
            decreases want - k,
        {
            out.set(k, self.byte_at(off + k));
            k += 1;
        }
        proof {
            assert(out@ =~= self@.subrange(off as int, off + want) + old(out)@.skip(want as int));
        }
        Ok(want)
    }
}

} // verus!
