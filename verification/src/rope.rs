//! The text engine: a red-black tree of gap-buffer leaves.  Every node
//! carries a leaf and caches its subtree's byte and newline totals, so
//! offset and line lookups descend without touching leaf contents.  The
//! in-order concatenation of the leaves is the document.

use vstd::prelude::*;
use vstd::slice::slice_subrange;
use crate::leaf::{Leaf, RBError, LEAF_CAPACITY, LEAF_USABLE, count_nl, lemma_count_nl_concat,
    lemma_count_nl_le_len, lemma_nl_offsets_concat, lemma_nl_offsets_len, nl_offsets};

verus! {

#[derive(Debug, Clone, Copy, PartialEq, Eq, Structural)]
enum Color {
    Red,
    Black,
}

/// One tree node: a colour, a payload leaf, the cached subtree aggregates,
/// and the children.
#[derive(Debug)]
struct RNode {
    color: Color,
    sub_bytes: usize,
    sub_lines: usize,
    leaf: Leaf,
    left: Option<Box<RNode>>,
    right: Option<Box<RNode>>,
}

/// In-order concatenation of the leaves: the document this subtree holds.
spec fn doc_of(o: Option<Box<RNode>>) -> Seq<u8>
    decreases o,
{
    match o {
        None => Seq::empty(),
        Some(n) => doc_of(n.left) + n.leaf@ + doc_of(n.right),
    }
}

/// Number of leaves (= nodes) of the subtree.
spec fn n_leaves(o: Option<Box<RNode>>) -> nat
    decreases o,
{
    match o {
        None => 0,
        Some(n) => n_leaves(n.left) + 1 + n_leaves(n.right),
    }
}

/// Data soundness: every leaf is well formed and every cached aggregate
/// equals the true byte / newline total of its subtree.
spec fn data_wf(o: Option<Box<RNode>>) -> bool
    decreases o,
{
    match o {
        None => true,
        Some(n) => {
            &&& data_wf(n.left)
            &&& data_wf(n.right)
            &&& n.leaf.wf()
            &&& n.sub_bytes == doc_of(Some(n)).len()
            &&& n.sub_lines == count_nl(doc_of(Some(n)))
        },
    }
}

/// An absent child counts as black.
spec fn is_black(o: Option<Box<RNode>>) -> bool {
    match o {
        None => true,
        Some(n) => n.color == Color::Black,
    }
}

/// No red node has a red child.
spec fn red_ok(o: Option<Box<RNode>>) -> bool
    decreases o,
{
    match o {
        None => true,
        Some(n) => {
            &&& (n.color == Color::Red ==> is_black(n.left) && is_black(n.right))
            &&& red_ok(n.left)
            &&& red_ok(n.right)
        },
    }
}

/// Black height, measured along the left spine.
spec fn bh(o: Option<Box<RNode>>) -> nat
    decreases o,
{
    match o {
        None => 0,
        Some(n) => bh(n.left) + if n.color == Color::Black {
            1nat
        } else {
            0nat
        },
    }
}

/// Every node's two subtrees have equal black height.
spec fn bh_ok(o: Option<Box<RNode>>) -> bool
    decreases o,
{
    match o {
        None => true,
        Some(n) => bh_ok(n.left) && bh_ok(n.right) && bh(n.left) == bh(n.right),
    }
}

/// Full red-black soundness of a subtree.
spec fn rb_wf(o: Option<Box<RNode>>) -> bool {
    data_wf(o) && bh_ok(o) && red_ok(o)
}

/// Like `red_ok`, except the node itself may be red with a red child;
/// the temporary state a rebalancing insertion hands to its parent.
spec fn near_red_ok(n: Box<RNode>) -> bool {
    red_ok(n.left) && red_ok(n.right)
}

/// Subtree byte total, read off the cache.
fn opt_bytes(o: &Option<Box<RNode>>) -> (r: usize)
    requires
        data_wf(*o),
    ensures
        r == doc_of(*o).len(),
{
    match o {
        None => 0,
        Some(n) => n.sub_bytes,
    }
}

/// Subtree newline total, read off the cache.
fn opt_lines(o: &Option<Box<RNode>>) -> (r: usize)
    requires
        data_wf(*o),
    ensures
        r == count_nl(doc_of(*o)),
{
    match o {
        None => 0,
        Some(n) => n.sub_lines,
    }
}

fn is_red(o: &Option<Box<RNode>>) -> (r: bool)
    ensures
        r == !is_black(*o),
{
    match o {
        None => false,
        Some(n) => n.color == Color::Red,
    }
}

/// Build a node, computing its cached aggregates from its parts.
fn mk(color: Color, leaf: Leaf, left: Option<Box<RNode>>, right: Option<Box<RNode>>) -> (r: Box<
    RNode,
>)
    requires
        leaf.wf(),
        data_wf(left),
        data_wf(right),
        doc_of(left).len() + leaf@.len() + doc_of(right).len() <= usize::MAX,
    ensures
        data_wf(Some(r)),
        r.color == color,
        r.leaf == leaf,
        r.left == left,
        r.right == right,
        doc_of(Some(r)) == doc_of(left) + leaf@ + doc_of(right),
        n_leaves(Some(r)) == n_leaves(left) + 1 + n_leaves(right),
{
    proof {
        lemma_count_nl_le_len(doc_of(left));
        lemma_count_nl_le_len(doc_of(right));
        lemma_count_nl_le_len(leaf@);
    }
    let lb = opt_bytes(&left);
    let rb = opt_bytes(&right);
    let ll = leaf.byte_len();
    let ln = opt_lines(&left);
    let rn = opt_lines(&right);
    let lln = leaf.newline_count();
    let sub_bytes: usize = lb + ll + rb;
    let sub_lines: usize = ln + lln + rn;
    let n = Box::new(RNode { color, sub_bytes, sub_lines, leaf, left, right });
    proof {
        lemma_count_nl_concat(doc_of(n.left) + n.leaf@, doc_of(n.right));
        lemma_count_nl_concat(doc_of(n.left), n.leaf@);
        assert(doc_of(n.left) + n.leaf@ + doc_of(n.right) == (doc_of(n.left) + n.leaf@) + doc_of(
            n.right,
        ));
    }
    n
}

/// Rebalance a black node whose left subtree may carry a red-red pair at
/// its top (the two rotation cases of red-black insertion, plus the
/// already-sound case).
#[verifier::rlimit(60)]
fn balance_left(leaf: Leaf, left: Box<RNode>, right: Option<Box<RNode>>) -> (r: Box<RNode>)
    requires
        leaf.wf(),
        data_wf(Some(left)),
        data_wf(right),
        bh_ok(Some(left)),
        bh_ok(right),
        bh(Some(left)) == bh(right),
        near_red_ok(left),
        red_ok(right),
        doc_of(Some(left)).len() + leaf@.len() + doc_of(right).len() <= usize::MAX,
    ensures
        data_wf(Some(r)),
        doc_of(Some(r)) == doc_of(Some(left)) + leaf@ + doc_of(right),
        n_leaves(Some(r)) == n_leaves(Some(left)) + 1 + n_leaves(right),
        bh_ok(Some(r)),
        bh(Some(r)) == bh(Some(left)) + 1,
        red_ok(Some(r)),
{
    let ghost l0 = left;
    proof {
        assert(data_wf(Some(l0)));
        assert(data_wf(l0.left) && data_wf(l0.right) && l0.leaf.wf());
        assert(doc_of(Some(l0)) == doc_of(l0.left) + l0.leaf@ + doc_of(l0.right));
        assert(n_leaves(Some(l0)) == n_leaves(l0.left) + 1 + n_leaves(l0.right));
        assert(bh_ok(l0.left) && bh_ok(l0.right) && bh(l0.left) == bh(l0.right));
    }
    let mut l = left;
    if l.color == Color::Red && is_red(&l.left) {
        let ll = l.left.take().unwrap();
        proof {
            assert(l0.left == Some(ll));
            assert(data_wf(ll.left) && data_wf(ll.right) && ll.leaf.wf());
            assert(doc_of(Some(ll)) == doc_of(ll.left) + ll.leaf@ + doc_of(ll.right));
            assert(n_leaves(Some(ll)) == n_leaves(ll.left) + 1 + n_leaves(ll.right));
            assert(bh_ok(ll.left) && bh_ok(ll.right) && bh(ll.left) == bh(ll.right));
            assert(red_ok(Some(ll)) && red_ok(l0.right));
            assert(red_ok(ll.left) && red_ok(ll.right));
            assert(bh(Some(l0)) == bh(ll.left));
        }
        let nl = mk(Color::Black, ll.leaf, ll.left, ll.right);
        let nr = mk(Color::Black, leaf, l.right.take(), right);
        let res = mk(Color::Red, l.leaf, Some(nl), Some(nr));
        proof {
            assert(doc_of(Some(res)) =~= doc_of(Some(l0)) + leaf@ + doc_of(right));
            assert(bh(Some(nl)) == bh(ll.left) + 1);
            assert(bh(Some(nr)) == bh(l0.right) + 1);
            assert(bh(Some(res)) == bh(Some(nl)));
            assert(bh_ok(Some(nl)) && bh_ok(Some(nr)));
            assert(red_ok(Some(nl)));
            assert(red_ok(Some(nr)));
            assert(is_black(Some(nl)) && is_black(Some(nr)));
            assert(red_ok(Some(res)));
        }
        res
    } else if l.color == Color::Red && is_red(&l.right) {
        let lr = l.right.take().unwrap();
        proof {
            assert(l0.right == Some(lr));
            assert(data_wf(lr.left) && data_wf(lr.right) && lr.leaf.wf());
            assert(doc_of(Some(lr)) == doc_of(lr.left) + lr.leaf@ + doc_of(lr.right));
            assert(n_leaves(Some(lr)) == n_leaves(lr.left) + 1 + n_leaves(lr.right));
            assert(bh_ok(lr.left) && bh_ok(lr.right) && bh(lr.left) == bh(lr.right));
            assert(red_ok(l0.left) && red_ok(Some(lr)));
            assert(red_ok(lr.left) && red_ok(lr.right));
            assert(bh(Some(lr)) == bh(lr.left));
            assert(bh(Some(l0)) == bh(l0.left));
        }
        let nl = mk(Color::Black, l.leaf, l.left.take(), lr.left);
        let nr = mk(Color::Black, leaf, lr.right, right);
        let res = mk(Color::Red, lr.leaf, Some(nl), Some(nr));
        proof {
            assert(doc_of(Some(res)) =~= doc_of(Some(l0)) + leaf@ + doc_of(right));
            assert(bh(Some(nl)) == bh(l0.left) + 1);
            assert(bh(Some(nr)) == bh(lr.right) + 1);
            assert(bh(Some(res)) == bh(Some(nl)));
            assert(bh_ok(Some(nl)) && bh_ok(Some(nr)));
            assert(red_ok(Some(nl)));
            assert(red_ok(Some(nr)));
            assert(is_black(Some(nl)) && is_black(Some(nr)));
            assert(red_ok(Some(res)));
        }
        res
    } else {
        let res = mk(Color::Black, leaf, Some(l), right);
        proof {
            assert(l == l0);
            assert(red_ok(Some(l0)));
            assert(bh(Some(res)) == bh(Some(l0)) + 1);
            assert(bh_ok(Some(res)));
        }
        res
    }
}

/// Mirror of `balance_left` for a violation in the right subtree.
#[verifier::rlimit(60)]
fn balance_right(leaf: Leaf, left: Option<Box<RNode>>, right: Box<RNode>) -> (r: Box<RNode>)
    requires
        leaf.wf(),
        data_wf(left),
        data_wf(Some(right)),
        bh_ok(left),
        bh_ok(Some(right)),
        bh(left) == bh(Some(right)),
        red_ok(left),
        near_red_ok(right),
        doc_of(left).len() + leaf@.len() + doc_of(Some(right)).len() <= usize::MAX,
    ensures
        data_wf(Some(r)),
        doc_of(Some(r)) == doc_of(left) + leaf@ + doc_of(Some(right)),
        n_leaves(Some(r)) == n_leaves(left) + 1 + n_leaves(Some(right)),
        bh_ok(Some(r)),
        bh(Some(r)) == bh(left) + 1,
        red_ok(Some(r)),
{
    let ghost r0 = right;
    let ghost left0 = left;
    proof {
        assert(data_wf(Some(r0)));
        assert(data_wf(r0.left) && data_wf(r0.right) && r0.leaf.wf());
        assert(doc_of(Some(r0)) == doc_of(r0.left) + r0.leaf@ + doc_of(r0.right));
        assert(n_leaves(Some(r0)) == n_leaves(r0.left) + 1 + n_leaves(r0.right));
        assert(bh_ok(r0.left) && bh_ok(r0.right) && bh(r0.left) == bh(r0.right));
    }
    let mut rt = right;
    if rt.color == Color::Red && is_red(&rt.right) {
        let rr = rt.right.take().unwrap();
        proof {
            assert(r0.right == Some(rr));
            assert(data_wf(rr.left) && data_wf(rr.right) && rr.leaf.wf());
            assert(doc_of(Some(rr)) == doc_of(rr.left) + rr.leaf@ + doc_of(rr.right));
            assert(n_leaves(Some(rr)) == n_leaves(rr.left) + 1 + n_leaves(rr.right));
            assert(bh_ok(rr.left) && bh_ok(rr.right) && bh(rr.left) == bh(rr.right));
            assert(red_ok(r0.left) && red_ok(Some(rr)));
            assert(red_ok(rr.left) && red_ok(rr.right));
            assert(bh(Some(r0)) == bh(r0.left));
            assert(bh(Some(rr)) == bh(rr.left));
        }
        let nl = mk(Color::Black, leaf, left, rt.left.take());
        let nr = mk(Color::Black, rr.leaf, rr.left, rr.right);
        let res = mk(Color::Red, rt.leaf, Some(nl), Some(nr));
        proof {
            assert(doc_of(Some(res)) =~= doc_of(left0) + leaf@ + doc_of(Some(r0)));
            assert(bh(Some(nl)) == bh(left0) + 1);
            assert(bh(Some(nr)) == bh(rr.left) + 1);
            assert(bh(Some(res)) == bh(Some(nl)));
            assert(bh_ok(Some(nl)) && bh_ok(Some(nr)));
            assert(red_ok(Some(nl)));
            assert(red_ok(Some(nr)));
            assert(is_black(Some(nl)) && is_black(Some(nr)));
            assert(red_ok(Some(res)));
        }
        res
    } else if rt.color == Color::Red && is_red(&rt.left) {
        let rl = rt.left.take().unwrap();
        proof {
            assert(r0.left == Some(rl));
            assert(data_wf(rl.left) && data_wf(rl.right) && rl.leaf.wf());
            assert(doc_of(Some(rl)) == doc_of(rl.left) + rl.leaf@ + doc_of(rl.right));
            assert(n_leaves(Some(rl)) == n_leaves(rl.left) + 1 + n_leaves(rl.right));
            assert(bh_ok(rl.left) && bh_ok(rl.right) && bh(rl.left) == bh(rl.right));
            assert(red_ok(Some(rl)) && red_ok(r0.right));
            assert(red_ok(rl.left) && red_ok(rl.right));
            assert(bh(Some(r0)) == bh(r0.left));
            assert(bh(Some(rl)) == bh(rl.left));
        }
        let nl = mk(Color::Black, leaf, left, rl.left);
        let nr = mk(Color::Black, rt.leaf, rl.right, rt.right.take());
        let res = mk(Color::Red, rl.leaf, Some(nl), Some(nr));
        proof {
            assert(doc_of(Some(res)) =~= doc_of(left0) + leaf@ + doc_of(Some(r0)));
            assert(bh(Some(nl)) == bh(left0) + 1);
            assert(bh(Some(nr)) == bh(rl.right) + 1);
            assert(bh(Some(res)) == bh(Some(nl)));
            assert(bh_ok(Some(nl)) && bh_ok(Some(nr)));
            assert(red_ok(Some(nl)));
            assert(red_ok(Some(nr)));
            assert(is_black(Some(nl)) && is_black(Some(nr)));
            assert(red_ok(Some(res)));
        }
        res
    } else {
        let res = mk(Color::Black, leaf, left, Some(rt));
        proof {
            assert(rt == r0);
            assert(red_ok(Some(r0)));
            assert(bh(Some(res)) == bh(left0) + 1);
            assert(bh_ok(Some(res)));
        }
        res
    }
}


/// Rebuild a node of the given colour around a left child that may carry a
/// top red-red violation: a black node is mended by `balance_left`, a red
/// node is reassembled and hands the violation upward.
fn join_left(color: Color, leaf: Leaf, left: Box<RNode>, right: Option<Box<RNode>>) -> (r: Box<
    RNode,
>)
    requires
        leaf.wf(),
        data_wf(Some(left)),
        data_wf(right),
        bh_ok(Some(left)),
        bh_ok(right),
        bh(Some(left)) == bh(right),
        near_red_ok(left),
        red_ok(right),
        color == Color::Red ==> red_ok(Some(left)) && is_black(right),
        doc_of(Some(left)).len() + leaf@.len() + doc_of(right).len() <= usize::MAX,
    ensures
        data_wf(Some(r)),
        bh_ok(Some(r)),
        doc_of(Some(r)) == doc_of(Some(left)) + leaf@ + doc_of(right),
        n_leaves(Some(r)) == n_leaves(Some(left)) + 1 + n_leaves(right),
        bh(Some(r)) == bh(Some(left)) + if color == Color::Black {
            1nat
        } else {
            0nat
        },
        near_red_ok(r),
        color == Color::Black ==> red_ok(Some(r)),
{
    if color == Color::Black {
        balance_left(leaf, left, right)
    } else {
        let res = mk(Color::Red, leaf, Some(left), right);
        proof {
            assert(bh(Some(res)) == bh(Some(left)));
            assert(bh_ok(Some(res)));
        }
        res
    }
}

/// Mirror of `join_left`.
fn join_right(color: Color, leaf: Leaf, left: Option<Box<RNode>>, right: Box<RNode>) -> (r: Box<
    RNode,
>)
    requires
        leaf.wf(),
        data_wf(left),
        data_wf(Some(right)),
        bh_ok(left),
        bh_ok(Some(right)),
        bh(left) == bh(Some(right)),
        red_ok(left),
        near_red_ok(right),
        color == Color::Red ==> red_ok(Some(right)) && is_black(left),
        doc_of(left).len() + leaf@.len() + doc_of(Some(right)).len() <= usize::MAX,
    ensures
        data_wf(Some(r)),
        bh_ok(Some(r)),
        doc_of(Some(r)) == doc_of(left) + leaf@ + doc_of(Some(right)),
        n_leaves(Some(r)) == n_leaves(left) + 1 + n_leaves(Some(right)),
        bh(Some(r)) == bh(left) + if color == Color::Black {
            1nat
        } else {
            0nat
        },
        near_red_ok(r),
        color == Color::Black ==> red_ok(Some(r)),
{
    if color == Color::Black {
        balance_right(leaf, left, right)
    } else {
        let res = mk(Color::Red, leaf, left, Some(right));
        proof {
            assert(bh(Some(res)) == bh(left));
            assert(bh_ok(Some(res)));
        }
        res
    }
}

/// Paint a node black (the root repaint that ends an insertion).
fn blacken(n: Box<RNode>) -> (r: Box<RNode>)
    requires
        data_wf(Some(n)),
        bh_ok(Some(n)),
        near_red_ok(n),
    ensures
        data_wf(Some(r)),
        bh_ok(Some(r)),
        red_ok(Some(r)),
        is_black(Some(r)),
        doc_of(Some(r)) == doc_of(Some(n)),
        n_leaves(Some(r)) == n_leaves(Some(n)),
{
    let mut n = n;
    n.color = Color::Black;
    n
}

/// Insert a fresh leaf as the last leaf of the subtree, rebalancing on the
/// way back up.  The result may be red-red at its top; the caller mends it.
fn ins_rightmost(o: Option<Box<RNode>>, leaf: Leaf) -> (r: Box<RNode>)
    requires
        rb_wf(o),
        leaf.wf(),
        doc_of(o).len() + leaf@.len() <= usize::MAX,
    ensures
        data_wf(Some(r)),
        bh_ok(Some(r)),
        doc_of(Some(r)) == doc_of(o) + leaf@,
        n_leaves(Some(r)) == n_leaves(o) + 1,
        bh(Some(r)) == bh(o),
        near_red_ok(r),
        is_black(o) ==> red_ok(Some(r)),
    decreases o,
{
    match o {
        None => {
            let r = mk(Color::Red, leaf, None, None);
            proof {
                assert(doc_of(Some(r)) =~= leaf@);
                assert(doc_of(None::<Box<RNode>>) + leaf@ =~= leaf@);
            }
            r
        },
        Some(n) => {
            let ghost n0 = n;
            let mut n = n;
            let rsub = n.right.take();
            let newr = ins_rightmost(rsub, leaf);
            if n.color == Color::Black {
                let res = balance_right(n.leaf, n.left.take(), newr);
                proof {
                    assert(doc_of(Some(res)) =~= doc_of(Some(n0)) + leaf@);
                }
                res
            } else {
                let res = mk(Color::Red, n.leaf, n.left.take(), Some(newr));
                proof {
                    assert(doc_of(Some(res)) =~= doc_of(Some(n0)) + leaf@);
                }
                res
            }
        },
    }
}

/// A clamped slice: the bytes of `s` from `off`, at most `want` of them.
pub open spec fn slice_clamped(s: Seq<u8>, off: int, want: int) -> Seq<u8> {
    if off >= s.len() || off < 0 || want <= 0 {
        Seq::empty()
    } else if off + want <= s.len() {
        s.subrange(off, off + want)
    } else {
        s.subrange(off, s.len() as int)
    }
}

/// Reading a clamped slice out of a concatenation splits into reading the
/// two halves, the second starting where the first left off.
proof fn lemma_slice_clamped_concat(a: Seq<u8>, b: Seq<u8>, off: int, want: int)
    requires
        off >= 0,
        want >= 0,
    ensures
        slice_clamped(a + b, off, want) == slice_clamped(a, off, want) + slice_clamped(
            b,
            if off >= a.len() {
                off - a.len()
            } else {
                0
            },
            want - slice_clamped(a, off, want).len(),
        ),
{
    let off2 = if off >= a.len() {
        off - a.len()
    } else {
        0
    };
    let want2 = want - slice_clamped(a, off, want).len();
    assert(slice_clamped(a + b, off, want) =~= slice_clamped(a, off, want) + slice_clamped(
        b,
        off2,
        want2,
    ));
}

/// Read up to `want` bytes of the subtree document starting at `off`.
fn read_rec(o: &Option<Box<RNode>>, off: usize, want: usize) -> (v: Vec<u8>)
    requires
        data_wf(*o),
    ensures
        v@ == slice_clamped(doc_of(*o), off as int, want as int),
    decreases *o,
{
    match o {
        None => {
            Vec::new()
        },
        Some(n) => {
            let ghost whole = doc_of(*o);
            let lb = opt_bytes(&n.left);
            let ll = n.leaf.byte_len();
            let mut v: Vec<u8> = if off < lb {
                read_rec(&n.left, off, want)
            } else {
                Vec::new()
            };
            proof {
                assert(v@ == slice_clamped(doc_of(n.left), off as int, want as int));
            }
            let loff: usize = if off > lb {
                off - lb
            } else {
                0
            };
            let want1: usize = want - v.len();
            let a: usize = if loff < ll {
                loff
            } else {
                ll
            };
            let b: usize = if want1 < ll - a {
                a + want1
            } else {
                ll
            };
            let mut piece = n.leaf.read_range(a, b);
            proof {
                assert(piece@ =~= slice_clamped(n.leaf@, loff as int, want1 as int));
            }
            v.append(&mut piece);
            let roff: usize = if off > lb && off - lb > ll {
                off - lb - ll
            } else {
                0
            };
            let want2: usize = want - v.len();
            let mut tail = read_rec(&n.right, roff, want2);
            v.append(&mut tail);
            proof {
                lemma_slice_clamped_concat(
                    doc_of(n.left) + n.leaf@,
                    doc_of(n.right),
                    off as int,
                    want as int,
                );
                lemma_slice_clamped_concat(doc_of(n.left), n.leaf@, off as int, want as int);
                assert(doc_of(n.left) + n.leaf@ + doc_of(n.right) == (doc_of(n.left) + n.leaf@)
                    + doc_of(n.right));
                assert(v@ == slice_clamped(whole, off as int, want as int));
            }
            v
        },
    }
}


/// Insert a fresh leaf as the first leaf of the subtree, rebalancing on the
/// way back up; mirror of `ins_rightmost`.
fn ins_leftmost(o: Option<Box<RNode>>, leaf: Leaf) -> (r: Box<RNode>)
    requires
        rb_wf(o),
        leaf.wf(),
        doc_of(o).len() + leaf@.len() <= usize::MAX,
    ensures
        data_wf(Some(r)),
        bh_ok(Some(r)),
        doc_of(Some(r)) == leaf@ + doc_of(o),
        n_leaves(Some(r)) == n_leaves(o) + 1,
        bh(Some(r)) == bh(o),
        near_red_ok(r),
        is_black(o) ==> red_ok(Some(r)),
    decreases o,
{
    match o {
        None => {
            let r = mk(Color::Red, leaf, None, None);
            proof {
                assert(doc_of(Some(r)) =~= leaf@);
                assert(leaf@ + doc_of(None::<Box<RNode>>) =~= leaf@);
            }
            r
        },
        Some(n) => {
            let ghost n0 = n;
            let mut n = n;
            let lsub = n.left.take();
            let newl = ins_leftmost(lsub, leaf);
            if n.color == Color::Black {
                let res = balance_left(n.leaf, newl, n.right.take());
                proof {
                    assert(doc_of(Some(res)) =~= leaf@ + doc_of(Some(n0)));
                }
                res
            } else {
                let res = mk(Color::Red, n.leaf, Some(newl), n.right.take());
                proof {
                    assert(doc_of(Some(res)) =~= leaf@ + doc_of(Some(n0)));
                }
                res
            }
        },
    }
}

/// The full-leaf half of `step_leaf`: split the leaf at `local`, copy into
/// the half with room, and link the other half in as a new node just after.
#[verifier::rlimit(100)]
fn step_leaf_split(o: Box<RNode>, local: usize, data: &[u8]) -> (res: (Box<RNode>, usize))
    requires
        rb_wf(Some(o)),
        local <= o.leaf@.len(),
        o.leaf@.len() == LEAF_CAPACITY as int,
        data@.len() > 0,
        doc_of(Some(o)).len() + data@.len() <= usize::MAX,
    ensures
        ({
            let (r, c) = res;
            let off = doc_of(o.left).len() + local;
            &&& 1 <= c <= data@.len()
            &&& data_wf(Some(r))
            &&& bh_ok(Some(r))
            &&& doc_of(Some(r)) == doc_of(Some(o)).take(off as int) + data@.take(c as int) + doc_of(
                Some(o),
            ).skip(off as int)
            &&& bh(Some(r)) == bh(Some(o))
            &&& near_red_ok(r)
            &&& (is_black(Some(o)) ==> red_ok(Some(r)))
        }),
{
    let ghost o0 = o;
    let ghost whole = doc_of(Some(o));
    let ghost off = doc_of(o.left).len() + local;
    proof {
        assert(data_wf(o0.left) && data_wf(o0.right) && o0.leaf.wf());
        assert(whole == doc_of(o0.left) + o0.leaf@ + doc_of(o0.right));
        assert(bh_ok(o0.left) && bh_ok(o0.right) && bh(o0.left) == bh(o0.right));
        assert(red_ok(o0.left) && red_ok(o0.right));
        assert(o0.color == Color::Red ==> is_black(o0.left) && is_black(o0.right));
    }
    let mut n = o;
    let ghost leaf0 = n.leaf;
    let mut tail = n.leaf.split_off(local);
    let c: usize;
    if local < LEAF_CAPACITY {
        let ins = n.leaf.insert(local, data);
        c = match ins {
            Ok(c) => c,
            Err(e) => {
                proof {
                    assert(false);
                }
                0
            },
        };
    } else {
        let ins = tail.insert(0, data);
        c = match ins {
            Ok(c) => c,
            Err(e) => {
                proof {
                    assert(false);
                }
                0
            },
        };
    }
    let nr = ins_leftmost(n.right.take(), tail);
    proof {
        assert(n.color == Color::Red ==> red_ok(Some(nr)) && is_black(n.left));
    }
    let res = join_right(n.color, n.leaf, n.left.take(), nr);
    proof {
        assert(whole.take(off as int) =~= doc_of(o0.left) + leaf0@.take(local as int));
        assert(whole.skip(off as int) =~= leaf0@.skip(local as int) + doc_of(o0.right));
        assert(doc_of(Some(res)) =~= whole.take(off as int) + data@.take(c as int) + whole.skip(
            off as int,
        ));
    }
    (res, c)
}

/// Place bytes into this node's own leaf at leaf-local offset `local`,
/// splitting the leaf first when its gap is gone.  At least one byte is
/// always placed.
#[verifier::rlimit(100)]
fn step_leaf(o: Box<RNode>, local: usize, data: &[u8]) -> (res: (Box<RNode>, usize))
    requires
        rb_wf(Some(o)),
        local <= o.leaf@.len(),
        data@.len() > 0,
        doc_of(Some(o)).len() + data@.len() <= usize::MAX,
    ensures
        ({
            let (r, c) = res;
            let off = doc_of(o.left).len() + local;
            &&& 1 <= c <= data@.len()
            &&& data_wf(Some(r))
            &&& bh_ok(Some(r))
            &&& doc_of(Some(r)) == doc_of(Some(o)).take(off as int) + data@.take(c as int) + doc_of(
                Some(o),
            ).skip(off as int)
            &&& bh(Some(r)) == bh(Some(o))
            &&& near_red_ok(r)
            &&& (is_black(Some(o)) ==> red_ok(Some(r)))
        }),
{
    let ghost o0 = o;
    let ghost whole = doc_of(Some(o));
    let ghost off = doc_of(o.left).len() + local;
    proof {
        assert(data_wf(o0.left) && data_wf(o0.right) && o0.leaf.wf());
        assert(whole == doc_of(o0.left) + o0.leaf@ + doc_of(o0.right));
        assert(bh_ok(o0.left) && bh_ok(o0.right) && bh(o0.left) == bh(o0.right));
        assert(red_ok(o0.left) && red_ok(o0.right));
        assert(o0.color == Color::Red ==> is_black(o0.left) && is_black(o0.right));
    }
    let mut n = o;
    let g = n.leaf.gap_size();
    if g > 0 {
        let ghost leaf0 = n.leaf;
        let ins = n.leaf.insert(local, data);
        let c: usize = match ins {
            Ok(c) => c,
            Err(e) => {
                proof {
                    assert(false);
                }
                0
            },
        };
        proof {
            assert(n.leaf@ == leaf0@.take(local as int) + data@.take(c as int) + leaf0@.skip(
                local as int,
            ));
        }
        refresh_aggs(&mut n);
        proof {
            let nn = n;
            assert(doc_of(Some(nn)) =~= whole.take(off as int) + data@.take(c as int) + whole.skip(
                off as int,
            ));
            assert(bh(Some(nn)) == bh(Some(o0)));
            assert(bh_ok(Some(nn)));
            assert(red_ok(Some(nn)) == red_ok(Some(o0)));
        }
        (n, c)
    } else {
        step_leaf_split(n, local, data)
    }
}

/// Insert as much of `data` as one step can place at document offset `off`:
/// descend by the cached byte totals to the leaf containing `off`, copy into
/// its gap, and split the leaf first when the gap is gone.  At least one
/// byte is always placed; rebalancing happens on the way back up.
#[verifier::rlimit(100)]
fn insert_step(o: Box<RNode>, off: usize, data: &[u8]) -> (res: (Box<RNode>, usize))
    requires
        rb_wf(Some(o)),
        off <= doc_of(Some(o)).len(),
        data@.len() > 0,
        doc_of(Some(o)).len() + data@.len() <= usize::MAX,
    ensures
        ({
            let (r, c) = res;
            &&& 1 <= c <= data@.len()
            &&& data_wf(Some(r))
            &&& bh_ok(Some(r))
            &&& doc_of(Some(r)) == doc_of(Some(o)).take(off as int) + data@.take(c as int) + doc_of(
                Some(o),
            ).skip(off as int)
            &&& bh(Some(r)) == bh(Some(o))
            &&& near_red_ok(r)
            &&& (is_black(Some(o)) ==> red_ok(Some(r)))
        }),
    decreases o,
{
    let ghost o0 = o;
    let ghost whole = doc_of(Some(o));
    proof {
        assert(data_wf(o0.left) && data_wf(o0.right) && o0.leaf.wf());
        assert(whole == doc_of(o0.left) + o0.leaf@ + doc_of(o0.right));
        assert(bh_ok(o0.left) && bh_ok(o0.right) && bh(o0.left) == bh(o0.right));
        assert(red_ok(o0.left) && red_ok(o0.right));
        assert(o0.color == Color::Red ==> is_black(o0.left) && is_black(o0.right));
    }
    let mut n = o;
    let lb = opt_bytes(&n.left);
    let ll = n.leaf.byte_len();
    if off < lb {
        proof {
            if o0.left is None {
                assert(false);
            }
        }
        let lsub = n.left.take().unwrap();
        let (nl, c) = insert_step(lsub, off, data);
        proof {
            assert(n.color == Color::Red ==> red_ok(Some(nl)) && is_black(n.right));
        }
        let res = join_left(n.color, n.leaf, nl, n.right.take());
        proof {
            assert(whole.take(off as int) =~= doc_of(o0.left).take(off as int));
            assert(whole.skip(off as int) =~= doc_of(o0.left).skip(off as int) + o0.leaf@ + doc_of(
                o0.right,
            ));
            assert(doc_of(Some(res)) =~= whole.take(off as int) + data@.take(c as int)
                + whole.skip(off as int));
        }
        (res, c)
    } else if off - lb <= ll {
        let local = off - lb;
        step_leaf(n, local, data)
    } else {
        proof {
            if o0.right is None {
                assert(false);
            }
        }
        let rsub = n.right.take().unwrap();
        let roff = off - lb - ll;
        let (nr, c) = insert_step(rsub, roff, data);
        proof {
            assert(n.color == Color::Red ==> red_ok(Some(nr)) && is_black(n.left));
        }
        let res = join_right(n.color, n.leaf, n.left.take(), nr);
        proof {
            assert(whole.take(off as int) =~= doc_of(o0.left) + o0.leaf@ + doc_of(o0.right).take(
                roff as int,
            ));
            assert(whole.skip(off as int) =~= doc_of(o0.right).skip(roff as int));
            assert(doc_of(Some(res)) =~= whole.take(off as int) + data@.take(c as int)
                + whole.skip(off as int));
        }
        (res, c)
    }
}


/// Cutting a range out of a three-part concatenation cuts the matching
/// sub-range out of each part, with the per-part ranges given as the
/// clamped bounds a caller computes.
#[verifier::rlimit(100)]
proof fn lemma_cut3(
    a: Seq<u8>,
    l: Seq<u8>,
    rr: Seq<u8>,
    start: int,
    end: int,
    ls: int,
    le: int,
    fs: int,
    fe: int,
    rs: int,
    re: int,
)
    requires
        0 <= start <= end <= a.len() + l.len() + rr.len(),
        ls == if start < a.len() { start } else { a.len() as int },
        le == if end < a.len() { end } else { a.len() as int },
        fs == if start > a.len() { if start - a.len() < l.len() { start - a.len() } else { l.len() as int } } else { 0 },
        fe == if end > a.len() { if end - a.len() < l.len() { end - a.len() } else { l.len() as int } } else { 0 },
        rs == if start > a.len() && start - a.len() > l.len() { start - a.len() - l.len() } else { 0 },
        re == if end > a.len() && end - a.len() > l.len() { end - a.len() - l.len() } else { 0 },
    ensures
        (a + l + rr).take(start) + (a + l + rr).skip(end) == (a.take(ls) + a.skip(le)) + (l.take(fs)
            + l.skip(fe)) + (rr.take(rs) + rr.skip(re)),
{
    assert((a + l + rr).take(start) + (a + l + rr).skip(end) =~= (a.take(ls) + a.skip(le)) + (
    l.take(fs) + l.skip(fe)) + (rr.take(rs) + rr.skip(re)));
}

/// Recompute this node's cached aggregates from its children and own leaf.
fn refresh_aggs(n: &mut Box<RNode>)
    requires
        data_wf(old(n).left),
        data_wf(old(n).right),
        old(n).leaf.wf(),
        doc_of(old(n).left).len() + old(n).leaf@.len() + doc_of(old(n).right).len() <= usize::MAX,
    ensures
        final(n).color == old(n).color,
        final(n).leaf == old(n).leaf,
        final(n).left == old(n).left,
        final(n).right == old(n).right,
        data_wf(Some(*final(n))),
        doc_of(Some(*final(n))) == doc_of(old(n).left) + old(n).leaf@ + doc_of(old(n).right),
        n_leaves(Some(*final(n))) == n_leaves(old(n).left) + 1 + n_leaves(old(n).right),
        bh(Some(*final(n))) == bh(old(n).left) + if old(n).color == Color::Black {
            1nat
        } else {
            0nat
        },
{
    proof {
        lemma_count_nl_le_len(doc_of(n.left));
        lemma_count_nl_le_len(doc_of(n.right));
        lemma_count_nl_le_len(n.leaf@);
    }
    let lb = opt_bytes(&n.left);
    let rb = opt_bytes(&n.right);
    let ln = opt_lines(&n.left);
    let rn = opt_lines(&n.right);
    let lfb = n.leaf.byte_len();
    let lfn = n.leaf.newline_count();
    n.sub_bytes = lb + lfb + rb;
    n.sub_lines = ln + lfn + rn;
    proof {
        let nn = *n;
        assert(doc_of(Some(nn)) == doc_of(nn.left) + nn.leaf@ + doc_of(nn.right));
        lemma_count_nl_concat(doc_of(nn.left) + nn.leaf@, doc_of(nn.right));
        lemma_count_nl_concat(doc_of(nn.left), nn.leaf@);
        assert(doc_of(nn.left) + nn.leaf@ + doc_of(nn.right) == (doc_of(nn.left) + nn.leaf@)
            + doc_of(nn.right));
        assert(data_wf(Some(nn)));
    }
}

/// Empty the byte range `[start, end)` of a possibly absent subtree.
fn delete_opt(o: Option<Box<RNode>>, start: usize, end: usize) -> (r: Option<Box<RNode>>)
    requires
        rb_wf(o),
        start <= end <= doc_of(o).len(),
    ensures
        rb_wf(r),
        is_black(r) == is_black(o),
        bh(r) == bh(o),
        n_leaves(r) == n_leaves(o),
        doc_of(r) == doc_of(o).take(start as int) + doc_of(o).skip(end as int),
    decreases o,
{
    match o {
        None => {
            proof {
                assert(doc_of(None::<Box<RNode>>).take(start as int) + doc_of(
                    None::<Box<RNode>>,
                ).skip(end as int) =~= doc_of(None::<Box<RNode>>));
            }
            None
        },
        Some(n) => Some(delete_rec(n, start, end)),
    }
}

/// Empty the byte range `[start, end)` of the subtree document by widening
/// leaf gaps; the tree structure and colours are untouched, only the
/// aggregates along the path are recomputed.
#[verifier::rlimit(100)]
fn delete_rec(o: Box<RNode>, start: usize, end: usize) -> (r: Box<RNode>)
    requires
        rb_wf(Some(o)),
        start <= end <= doc_of(Some(o)).len(),
    ensures
        rb_wf(Some(r)),
        r.color == o.color,
        bh(Some(r)) == bh(Some(o)),
        n_leaves(Some(r)) == n_leaves(Some(o)),
        doc_of(Some(r)) == doc_of(Some(o)).take(start as int) + doc_of(Some(o)).skip(end as int),
    decreases o,
{
    let ghost o0 = o;
    let ghost whole = doc_of(Some(o));
    proof {
        assert(data_wf(o0.left) && data_wf(o0.right) && o0.leaf.wf());
        assert(whole == doc_of(o0.left) + o0.leaf@ + doc_of(o0.right));
        assert(bh_ok(o0.left) && bh_ok(o0.right) && bh(o0.left) == bh(o0.right));
        assert(red_ok(o0.left) && red_ok(o0.right));
    }
    let mut n = o;
    let lb = opt_bytes(&n.left);
    let ll = n.leaf.byte_len();
    let ls: usize = if start < lb {
        start
    } else {
        lb
    };
    let le: usize = if end < lb {
        end
    } else {
        lb
    };
    let fs: usize = if start > lb {
        if start - lb < ll {
            start - lb
        } else {
            ll
        }
    } else {
        0
    };
    let fe: usize = if end > lb {
        if end - lb < ll {
            end - lb
        } else {
            ll
        }
    } else {
        0
    };
    let rs: usize = if start > lb && start - lb > ll {
        start - lb - ll
    } else {
        0
    };
    let re: usize = if end > lb && end - lb > ll {
        end - lb - ll
    } else {
        0
    };
    let lsub = n.left.take();
    n.left = delete_opt(lsub, ls, le);
    let del = n.leaf.delete(fs, fe - fs);
    match del {
        Ok(_) => {},
        Err(e) => {
            proof {
                assert(false);
            }
        },
    }
    let rsub = n.right.take();
    n.right = delete_opt(rsub, rs, re);
    proof {
        assert(n.leaf@ == o0.leaf@.take(fs as int) + o0.leaf@.skip(fe as int));
    }
    refresh_aggs(&mut n);
    proof {
        let nn = n;
        lemma_cut3(
            doc_of(o0.left),
            o0.leaf@,
            doc_of(o0.right),
            start as int,
            end as int,
            ls as int,
            le as int,
            fs as int,
            fe as int,
            rs as int,
            re as int,
        );
        assert(doc_of(Some(nn)) == whole.take(start as int) + whole.skip(end as int));
        assert(bh(Some(nn)) == bh(Some(o0)));
        assert(bh_ok(Some(nn)));
        assert(red_ok(Some(nn)));
    }
    n
}

/// A window of `hay` equals `pat`, byte for byte.
pub open spec fn is_match(doc: Seq<u8>, pat: Seq<u8>, i: int) -> bool {
    &&& 0 <= i
    &&& i + pat.len() <= doc.len()
    &&& doc.subrange(i, i + pat.len()) == pat
}

/// Compare `pat` against the window of `hay` starting at `i`.
fn bytes_eq_at(hay: &Vec<u8>, i: usize, pat: &[u8]) -> (r: bool)
    requires
        i + pat@.len() <= hay@.len(),
    ensures
        r == is_match(hay@, pat@, i as int),
{
    let m = pat.len();
    let hv = hay.len();
    let mut k: usize = 0;
    while k < m
        invariant
            m == pat@.len(),
            hv == hay@.len(),
            i + m <= hv,
            k <= m,
            forall|j: int| 0 <= j < k ==> hay@[i + j] == pat@[j],
        decreases m - k,
    {
        let a = hay[i + k];
        let b = pat[k];
        if a != b {
            proof {
                assert(hay@.subrange(i as int, i + pat@.len())[k as int] != pat@[k as int]);
            }
            return false;
        }
        k += 1;
    }
    proof {
        assert(hay@.subrange(i as int, i + pat@.len()) =~= pat@);
    }
    true
}


/// The concatenation of a sequence of byte chunks.
pub open spec fn concat_chunks(cs: Seq<Seq<u8>>) -> Seq<u8>
    decreases cs.len(),
{
    if cs.len() == 0 {
        Seq::empty()
    } else {
        cs.first() + concat_chunks(cs.drop_first())
    }
}

/// The concatenation of the views of chunks `[from, to)` of a chunk vector.
spec fn concat_vecs(cs: Seq<Vec<u8>>, from: int, to: int) -> Seq<u8>
    decreases to - from,
{
    if from < 0 || from >= to || to > cs.len() {
        Seq::empty()
    } else {
        cs[from]@ + concat_vecs(cs, from + 1, to)
    }
}

proof fn lemma_concat_vecs_app(cs: Seq<Vec<u8>>, a: int, m: int, b: int)
    requires
        0 <= a <= m <= b <= cs.len(),
    ensures
        concat_vecs(cs, a, b) == concat_vecs(cs, a, m) + concat_vecs(cs, m, b),
    decreases m - a,
{
    if a == m {
        assert(concat_vecs(cs, a, m) =~= Seq::<u8>::empty());
        assert(concat_vecs(cs, a, m) + concat_vecs(cs, m, b) =~= concat_vecs(cs, m, b));
    } else {
        lemma_concat_vecs_app(cs, a + 1, m, b);
        assert(cs[a]@ + (concat_vecs(cs, a + 1, m) + concat_vecs(cs, m, b)) =~= (cs[a]@
            + concat_vecs(cs, a + 1, m)) + concat_vecs(cs, m, b));
    }
}

proof fn lemma_concat_vecs_agree(cs: Seq<Vec<u8>>, ds: Seq<Vec<u8>>, a: int, b: int)
    requires
        b <= cs.len(),
        b <= ds.len(),
        forall|k: int| a <= k < b ==> cs[k] == ds[k],
    ensures
        concat_vecs(cs, a, b) == concat_vecs(ds, a, b),
    decreases b - a,
{
    if a >= 0 && a < b {
        lemma_concat_vecs_agree(cs, ds, a + 1, b);
    }
}

/// Copy a byte vector.
fn copy_bytes(v: &Vec<u8>) -> (r: Vec<u8>)
    ensures
        r@ == v@,
{
    let mut r: Vec<u8> = Vec::new();
    let mut k: usize = 0;
    while k < v.len()
        invariant
            k <= v@.len(),
            r@ == v@.take(k as int),
        decreases v@.len() - k,
    {
        r.push(v[k]);
        proof {
            assert(r@ =~= v@.take(k + 1 as int));
        }
        k += 1;
    }
    proof {
        assert(v@.take(v@.len() as int) =~= v@);
    }
    r
}

/// Push the chunks of the leaf range `[fs, fe)`: one chunk, or two where
/// the gap bisects the range.
#[verifier::rlimit(100)]
fn push_leaf_chunks(leaf: &Leaf, fs: usize, fe: usize, acc: &mut Vec<Vec<u8>>)
    requires
        leaf.wf(),
        fs <= fe <= leaf@.len(),
    ensures
        final(acc)@.len() >= old(acc)@.len(),
        forall|k: int| 0 <= k < old(acc)@.len() ==> #[trigger] final(acc)@[k] == old(acc)@[k],
        concat_vecs(final(acc)@, old(acc)@.len() as int, final(acc)@.len() as int) == leaf@.subrange(
            fs as int,
            fe as int,
        ),
        forall|k: int|
            old(acc)@.len() <= k < final(acc)@.len() ==> #[trigger] final(acc)@[k]@.len() > 0,
{
    let ghost m1 = acc@.len() as int;
    let gl = leaf.gap_start();
    let cut: usize = if gl < fs {
        fs
    } else if gl > fe {
        fe
    } else {
        gl
    };
    let piece1 = leaf.read_range(fs, cut);
    if piece1.len() > 0 {
        acc.push(piece1);
    }
    let piece2 = leaf.read_range(cut, fe);
    if piece2.len() > 0 {
        acc.push(piece2);
    }
    proof {
        let acc2 = acc@;
        let m2 = acc@.len() as int;
        assert(leaf@.subrange(fs as int, cut as int) + leaf@.subrange(cut as int, fe as int)
            =~= leaf@.subrange(fs as int, fe as int));
        assert(concat_vecs(acc2, m2, m2) =~= Seq::<u8>::empty());
        if m2 == m1 + 2 {
            assert(concat_vecs(acc2, m1 + 1, m2) == acc2[m1 + 1]@ + concat_vecs(acc2, m2, m2));
            assert(concat_vecs(acc2, m1 + 1, m2) =~= acc2[m1 + 1]@);
            assert(concat_vecs(acc2, m1, m2) == leaf@.subrange(fs as int, fe as int));
        } else if m2 == m1 + 1 {
            assert(concat_vecs(acc2, m1, m2) == acc2[m1]@ + concat_vecs(acc2, m2, m2));
            assert(concat_vecs(acc2, m1, m2) =~= acc2[m1]@);
            assert(concat_vecs(acc2, m1, m2) == leaf@.subrange(fs as int, fe as int));
        } else {
            assert(concat_vecs(acc2, m1, m2) =~= Seq::<u8>::empty());
            assert(concat_vecs(acc2, m1, m2) == leaf@.subrange(fs as int, fe as int));
        }
    }
}

/// Collect the chunks of the byte range `[start, end)` of the subtree, in
/// document order.  Each leaf contributes at most two chunks, split where
/// its gap bisects the requested range, so every chunk is contiguous in
/// some leaf's buffer.
#[verifier::rlimit(100)]
fn chunks_rec(o: &Option<Box<RNode>>, start: usize, end: usize, acc: &mut Vec<Vec<u8>>)
    requires
        data_wf(*o),
        start <= end <= doc_of(*o).len(),
    ensures
        final(acc)@.len() >= old(acc)@.len(),
        forall|k: int| 0 <= k < old(acc)@.len() ==> #[trigger] final(acc)@[k] == old(acc)@[k],
        concat_vecs(final(acc)@, old(acc)@.len() as int, final(acc)@.len() as int) == doc_of(
            *o,
        ).subrange(start as int, end as int),
        forall|k: int|
            old(acc)@.len() <= k < final(acc)@.len() ==> #[trigger] final(acc)@[k]@.len() > 0,
    decreases *o,
{
    match o {
        None => {
            proof {
                assert(concat_vecs(acc@, acc@.len() as int, acc@.len() as int) =~= doc_of(
                    *o,
                ).subrange(start as int, end as int));
            }
        },
        Some(n) => {
            let ghost m0 = acc@.len() as int;
            let ghost whole = doc_of(*o);
            proof {
                assert(data_wf(n.left) && data_wf(n.right) && n.leaf.wf());
                assert(whole == doc_of(n.left) + n.leaf@ + doc_of(n.right));
            }
            let lb = opt_bytes(&n.left);
            let ll = n.leaf.byte_len();
            let ls: usize = if start < lb {
                start
            } else {
                lb
            };
            let le: usize = if end < lb {
                end
            } else {
                lb
            };
            let fs: usize = if start > lb {
                if start - lb < ll {
                    start - lb
                } else {
                    ll
                }
            } else {
                0
            };
            let fe: usize = if end > lb {
                if end - lb < ll {
                    end - lb
                } else {
                    ll
                }
            } else {
                0
            };
            let rs: usize = if start > lb && start - lb > ll {
                start - lb - ll
            } else {
                0
            };
            let re: usize = if end > lb && end - lb > ll {
                end - lb - ll
            } else {
                0
            };
            chunks_rec(&n.left, ls, le, acc);
            let ghost acc1 = acc@;
            let ghost m1 = acc@.len() as int;
            push_leaf_chunks(&n.leaf, fs, fe, acc);
            let ghost acc2 = acc@;
            let ghost m2 = acc@.len() as int;
            chunks_rec(&n.right, rs, re, acc);
            proof {
                let accf = acc@;
                let m3 = acc@.len() as int;
                lemma_concat_vecs_app(accf, m0, m2, m3);
                lemma_concat_vecs_app(accf, m0, m1, m2);
                lemma_concat_vecs_agree(accf, acc1, m0, m1);
                lemma_concat_vecs_agree(accf, acc2, m1, m2);
                assert(concat_vecs(accf, m0, m1) == doc_of(n.left).subrange(ls as int, le as int));
                assert(concat_vecs(accf, m1, m2) == n.leaf@.subrange(fs as int, fe as int));
                assert(concat_vecs(accf, m2, m3) == doc_of(n.right).subrange(rs as int, re as int));
                assert(whole.subrange(start as int, end as int) =~= doc_of(n.left).subrange(
                    ls as int,
                    le as int,
                ) + n.leaf@.subrange(fs as int, fe as int) + doc_of(n.right).subrange(
                    rs as int,
                    re as int,
                ));
            }
        },
    }
}

/// The generic-chunk view of a chunk vector concatenates to the same bytes.
proof fn lemma_view_concat(cs: Seq<Vec<u8>>, a: int)
    requires
        0 <= a <= cs.len(),
    ensures
        concat_chunks(Seq::new((cs.len() - a) as nat, |i: int| cs[a + i]@)) == concat_vecs(
            cs,
            a,
            cs.len() as int,
        ),
    decreases cs.len() - a,
{
    let v = Seq::new((cs.len() - a) as nat, |i: int| cs[a + i]@);
    if a == cs.len() {
        assert(concat_chunks(v) =~= Seq::<u8>::empty());
        assert(concat_vecs(cs, a, cs.len() as int) =~= Seq::<u8>::empty());
    } else {
        lemma_view_concat(cs, a + 1);
        assert(v.first() == cs[a]@);
        assert(v.drop_first() =~= Seq::new((cs.len() - a - 1) as nat, |i: int| cs[a + 1 + i]@));
    }
}

/// A borrowed range of the document, handed out as the run of chunks the
/// leaves store it in: one chunk per contiguous leaf region, two where a
/// leaf's gap bisects the range.
#[derive(Debug)]
pub struct RopeSlice {
    chunks: Vec<Vec<u8>>,
    idx: usize,
}

impl RopeSlice {
    /// The chunks not yet handed out.
    pub closed spec fn view(&self) -> Seq<Seq<u8>> {
        Seq::new((self.chunks@.len() - self.idx) as nat, |i: int| self.chunks@[self.idx + i]@)
    }

    pub closed spec fn wf(&self) -> bool {
        self.idx <= self.chunks@.len()
    }

    /// The next chunk, front to back.
    pub fn next_chunk(&mut self) -> (r: Option<Vec<u8>>)
        requires
            old(self).wf(),
        ensures
            final(self).wf(),
            match r {
                Some(c) => {
                    &&& old(self)@.len() > 0
                    &&& c@ == old(self)@.first()
                    &&& final(self)@ == old(self)@.drop_first()
                },
                None => {
                    &&& old(self)@.len() == 0
                    &&& *final(self) == *old(self)
                },
            },
    {
        if self.idx < self.chunks.len() {
            let c = copy_bytes(&self.chunks[self.idx]);
            self.idx = self.idx + 1;
            proof {
                assert(self@ =~= old(self)@.drop_first());
            }
            Some(c)
        } else {
            None
        }
    }

    /// How many chunks are left.
    pub fn chunk_count(&self) -> (r: usize)
        requires
            self.wf(),
        ensures
            r == self@.len(),
    {
        self.chunks.len() - self.idx
    }
}


/// The byte offset just after the `line`-th newline of the subtree
/// document, located by the cached newline totals alone.
#[verifier::rlimit(100)]
fn line_off_rec(o: &Option<Box<RNode>>, line: usize) -> (r: usize)
    requires
        data_wf(*o),
        1 <= line <= count_nl(doc_of(*o)),
    ensures
        r == nl_offsets(doc_of(*o))[line - 1] + 1,
        r <= doc_of(*o).len(),
    decreases *o,
{
    match o {
        None => {
            proof {
                assert(count_nl(doc_of(*o)) == 0);
                assert(false);
            }
            0
        },
        Some(n) => {
            let ghost a = doc_of(n.left);
            let ghost l = n.leaf@;
            let ghost rr = doc_of(n.right);
            let ghost whole = doc_of(*o);
            proof {
                assert(whole == a + l + rr);
                assert(whole =~= a + (l + rr));
                lemma_nl_offsets_concat(a, l + rr);
                lemma_nl_offsets_concat(l, rr);
                lemma_nl_offsets_len(a);
                lemma_nl_offsets_len(l);
                lemma_nl_offsets_len(rr);
                lemma_nl_offsets_len(l + rr);
                lemma_nl_offsets_len(whole);
                lemma_count_nl_concat(a, l + rr);
                lemma_count_nl_concat(l, rr);
            }
            let ln_left = opt_lines(&n.left);
            if line <= ln_left {
                let r = line_off_rec(&n.left, line);
                proof {
                    assert(whole == a + (l + rr));
                    assert(nl_offsets(a + (l + rr))[line - 1] == nl_offsets(a)[line - 1]);
                    assert(nl_offsets(whole)[line - 1] == nl_offsets(a)[line - 1]);
                }
                r
            } else {
                let ln_leaf = n.leaf.newline_count();
                let lb = opt_bytes(&n.left);
                if line - ln_left <= ln_leaf {
                    let k = line - ln_left - 1;
                    let off = n.leaf.newline_offset(k);
                    proof {
                        assert(nl_offsets(l + rr)[k as int] == nl_offsets(l)[k as int]);
                        assert(whole == a + (l + rr));
                        assert(nl_offsets(a + (l + rr))[nl_offsets(a).len() + k] == nl_offsets(
                            l + rr,
                        )[k as int] + a.len());
                        assert(line - 1 == nl_offsets(a).len() + k);
                        assert(nl_offsets(whole)[line - 1] == nl_offsets(l)[k as int] + a.len());
                    }
                    lb + off + 1
                } else {
                    let ll = n.leaf.byte_len();
                    let r = line_off_rec(&n.right, line - ln_left - ln_leaf);
                    proof {
                        let m = line - ln_left - ln_leaf - 1;
                        let k = nl_offsets(l).len() + m;
                        assert(nl_offsets(l + rr)[k] == nl_offsets(rr)[m as int] + l.len());
                        assert(whole == a + (l + rr));
                        assert(nl_offsets(a + (l + rr))[nl_offsets(a).len() + k] == nl_offsets(
                            l + rr,
                        )[k] + a.len());
                        assert(line - 1 == nl_offsets(a).len() + k);
                        assert(nl_offsets(whole)[line - 1] == nl_offsets(rr)[m as int] + l.len()
                            + a.len());
                    }
                    lb + ll + r
                }
            }
        },
    }
}

/// The public text engine.
#[derive(Debug)]
pub struct Rope {
    root: Option<Box<RNode>>,
}

impl Rope {
    /// The document: the in-order concatenation of the leaves.
    pub closed spec fn view(&self) -> Seq<u8> {
        doc_of(self.root)
    }

    /// Number of leaves in the tree.
    pub closed spec fn spec_leaves(&self) -> nat {
        n_leaves(self.root)
    }

    /// The tree invariant: every leaf well formed, every cached aggregate
    /// the true subtree total, the root black, no red node with a red
    /// child, and equal black height on all paths.
    pub closed spec fn wf(&self) -> bool {
        rb_wf(self.root) && is_black(self.root)
    }

    pub fn new() -> (r: Rope)
        ensures
            r.wf(),
            r@ =~= Seq::<u8>::empty(),
            r.spec_leaves() == 0,
    {
        Rope { root: None }
    }

    /// Total bytes of the document, off the root's cache.
    pub fn len(&self) -> (r: usize)
        requires
            self.wf(),
        ensures
            r == self@.len(),
    {
        opt_bytes(&self.root)
    }

    /// Total newlines (0x0A bytes) of the document, off the root's cache.
    pub fn total_lines(&self) -> (r: usize)
        requires
            self.wf(),
        ensures
            r == count_nl(self@),
    {
        opt_lines(&self.root)
    }

    /// Register one more (empty) leaf at the tree's trailing edge; the
    /// document is unchanged.  The argument names the leaf for callers that
    /// number their insertions; the tree orders leaves structurally, so the
    /// number does not influence the document.
    pub fn insert(&mut self, key: u64) -> (r: Result<(), RBError>)
        requires
            old(self).wf(),
        ensures
            r.is_ok(),
            final(self).wf(),
            final(self)@ == old(self)@,
            final(self).spec_leaves() == old(self).spec_leaves() + 1,
    {
        let lf = Leaf::new();
        let ghost d0 = self@;
        let n = ins_rightmost(self.root.take(), lf);
        self.root = Some(blacken(n));
        proof {
            assert(self@ =~= d0);
        }
        Ok(())
    }

    /// Empty the tree, then fill it with `data` in document order, one leaf
    /// per `LEAF_USABLE` bytes.  Returns the number of bytes stored, which
    /// is all of them.
    #[verifier::rlimit(60)]
    pub fn build_from_bytes(&mut self, data: &[u8]) -> (r: Result<usize, RBError>)
        ensures
            r == Ok::<usize, RBError>(data@.len() as usize),
            final(self).wf(),
            final(self)@ == data@,
    {
        self.root = None;
        let mut i: usize = 0;
        while i < data.len()
            invariant
                i <= data@.len(),
                rb_wf(self.root),
                is_black(self.root),
                doc_of(self.root) == data@.take(i as int),
            decreases data@.len() - i,
        {
            let remaining = data.len() - i;
            let take_n: usize = if remaining > LEAF_USABLE {
                LEAF_USABLE
            } else {
                remaining
            };
            let chunk = slice_subrange(data, i, i + take_n);
            let mut lf = Leaf::new();
            let ins = lf.insert(0, chunk);
            match ins {
                Err(e) => {
                    proof {
                        assert(false);
                    }
                    return Err(e);
                },
                Ok(_) => {},
            }
            proof {
                assert(lf@ =~= chunk@);
            }
            let n = ins_rightmost(self.root.take(), lf);
            self.root = Some(blacken(n));
            proof {
                assert(doc_of(self.root) =~= data@.take(i + take_n));
            }
            i += take_n;
        }
        proof {
            assert(data@.take(data@.len() as int) =~= data@);
        }
        Ok(i)
    }

    /// Copy bytes starting at document offset `off` into the head of `out`,
    /// walking leaves in order.  Copies until `out` is full or the document
    /// ends; an offset at or past the end copies nothing.
    pub fn read_bytes_global(&self, off: usize, out: &mut Vec<u8>) -> (r: Result<usize, RBError>)
        requires
            self.wf(),
        ensures
            match r {
                Ok(n) => {
                    &&& n == slice_clamped(self@, off as int, old(out)@.len() as int).len()
                    &&& final(out)@ == slice_clamped(self@, off as int, old(out)@.len() as int)
                        + old(out)@.skip(n as int)
                    &&& (off <= self@.len() ==> n == vstd::math::min(
                        old(out)@.len() as int,
                        self@.len() - off,
                    ))
                },
                Err(_) => false,
            },
    {
        let v = read_rec(&self.root, off, out.len());
        let n = v.len();
        let mut k: usize = 0;
        while k < n
            invariant
                n == v@.len(),
                n <= out@.len(),
                out@.len() == old(out)@.len(),
                k <= n,
                forall|j: int| 0 <= j < k ==> out@[j] == v@[j],
                forall|j: int| k <= j < out@.len() ==> out@[j] == old(out)@[j],
            decreases n - k,
        {
            let byte = v[k];
            out.set(k, byte);
            k += 1;
        }
        proof {
            assert(out@ =~= v@ + old(out)@.skip(n as int));
        }
        Ok(n)
    }


    /// Insert `data` at document offset `off`: locate the target leaf, copy
    /// into its gap, and split leaves as often as needed until every byte is
    /// placed.  Fails only when `off` lies past the end of the document.
    pub fn insert_at(&mut self, off: usize, data: &[u8]) -> (r: Result<usize, RBError>)
        requires
            old(self).wf(),
            old(self)@.len() + data@.len() <= usize::MAX,
        ensures
            final(self).wf(),
            match r {
                Ok(n) => {
                    &&& n == data@.len()
                    &&& off <= old(self)@.len()
                    &&& final(self)@ == old(self)@.take(off as int) + data@ + old(self)@.skip(
                        off as int,
                    )
                },
                Err(e) => {
                    &&& e == RBError::InvalidOffset
                    &&& off > old(self)@.len()
                    &&& *final(self) == *old(self)
                },
            },
    {
        let len = self.len();
        if off > len {
            return Err(RBError::InvalidOffset);
        }
        let ghost w = self@;
        if data.len() == 0 {
            proof {
                assert(w.take(off as int) + data@ + w.skip(off as int) =~= w);
            }
            return Ok(0);
        }
        if self.root.is_none() {
            self.root = Some(mk(Color::Black, Leaf::new(), None, None));
            proof {
                assert(self@ =~= w);
            }
        }
        let mut placed: usize = 0;
        while placed < data.len()
            invariant
                rb_wf(self.root),
                is_black(self.root),
                self.root is Some,
                placed <= data@.len(),
                off <= w.len(),
                w.len() + data@.len() <= usize::MAX,
                self@ == w.take(off as int) + data@.take(placed as int) + w.skip(off as int),
            decreases data@.len() - placed,
        {
            let ghost cur = self@;
            let root = self.root.take().unwrap();
            let rest = slice_subrange(data, placed, data.len());
            let (nroot, c) = insert_step(root, off + placed, rest);
            self.root = Some(blacken(nroot));
            proof {
                assert(cur.take(off + placed as int) =~= w.take(off as int) + data@.take(
                    placed as int,
                ));
                assert(cur.skip(off + placed as int) =~= w.skip(off as int));
                assert(rest@.take(c as int) =~= data@.subrange(placed as int, placed + c));
                assert(self@ =~= w.take(off as int) + data@.take(placed + c) + w.skip(off as int));
            }
            placed += c;
        }
        proof {
            assert(data@.take(data@.len() as int) =~= data@);
        }
        Ok(placed)
    }


    /// Remove the byte range `[start, end)` from the document.  The range
    /// must be ordered and end within the document; anything else is the
    /// caller's offset bug and is reported, not clamped.
    pub fn delete_range(&mut self, start: usize, end: usize) -> (r: Result<(), RBError>)
        requires
            old(self).wf(),
        ensures
            final(self).wf(),
            match r {
                Ok(_) => {
                    &&& start <= end <= old(self)@.len()
                    &&& final(self)@ == old(self)@.take(start as int) + old(self)@.skip(end as int)
                },
                Err(e) => {
                    &&& e == RBError::InvalidOffset
                    &&& !(start <= end <= old(self)@.len())
                    &&& *final(self) == *old(self)
                },
            },
    {
        let len = self.len();
        if start > end || end > len {
            return Err(RBError::InvalidOffset);
        }
        let ghost w = self@;
        if start == end {
            proof {
                assert(w.take(start as int) + w.skip(end as int) =~= w);
            }
            return Ok(());
        }
        proof {
            if self.root is None {
                assert(false);
            }
        }
        let root = self.root.take().unwrap();
        let nroot = delete_rec(root, start, end);
        self.root = Some(nroot);
        Ok(())
    }

    /// The offset of the first occurrence of `needle` in the document, if
    /// any; an empty needle matches at offset zero.
    pub fn find_first(&self, needle: &[u8]) -> (r: Option<usize>)
        requires
            self.wf(),
        ensures
            match r {
                Some(i) => is_match(self@, needle@, i as int) && (forall|j: int|
                    0 <= j < i ==> !is_match(self@, needle@, j)),
                None => forall|j: int| !is_match(self@, needle@, j),
            },
    {
        if needle.len() == 0 {
            proof {
                assert(self@.subrange(0, 0) =~= needle@);
            }
            return Some(0);
        }
        let all = self.to_bytes();
        if all.len() < needle.len() {
            return None;
        }
        let n_all = all.len();
        let last = n_all - needle.len();
        let mut i: usize = 0;
        while i <= last
            invariant
                all@ == self@,
                needle@.len() > 0,
                n_all == all@.len(),
                last == n_all - needle@.len(),
                i <= last + 1,
                forall|j: int| 0 <= j < i ==> !is_match(self@, needle@, j),
            decreases last + 1 - i,
        {
            if bytes_eq_at(&all, i, needle) {
                return Some(i);
            }
            i += 1;
        }
        None
    }

    /// Replace the first occurrence of `needle` with `replacement`,
    /// splitting leaves as needed to place it.  Returns the offset that was
    /// replaced, or nothing when the needle is empty or absent.
    pub fn replace_first(&mut self, needle: &[u8], replacement: &[u8]) -> (r: Result<
        Option<usize>,
        RBError,
    >)
        requires
            old(self).wf(),
            old(self)@.len() + replacement@.len() <= usize::MAX + needle@.len(),
        ensures
            final(self).wf(),
            needle@.len() == 0 ==> r == Ok::<Option<usize>, RBError>(None) && *final(self) == *old(
                self,
            ),
            (needle@.len() > 0 && (forall|j: int| !is_match(old(self)@, needle@, j))) ==> r
                == Ok::<Option<usize>, RBError>(None) && *final(self) == *old(self),
            (needle@.len() > 0 && (exists|j: int| is_match(old(self)@, needle@, j))) ==> (exists|
                i: int,
            |
                {
                    &&& r == Ok::<Option<usize>, RBError>(Some(i as usize))
                    &&& is_match(old(self)@, needle@, i)
                    &&& forall|j: int| 0 <= j < i ==> !is_match(old(self)@, needle@, j)
                    &&& final(self)@ == old(self)@.take(i) + replacement@ + old(self)@.skip(
                        i + needle@.len(),
                    )
                }),
    {
        if needle.len() == 0 {
            return Ok(None);
        }
        let found = self.find_first(needle);
        match found {
            None => {
                proof {
                    assert(forall|j: int| !is_match(self@, needle@, j));
                }
                Ok(None)
            },
            Some(i) => {
                let ghost w = self@;
                let ghost i0 = i as int;
                let del = self.delete_range(i, i + needle.len());
                match del {
                    Ok(_) => {},
                    Err(e) => {
                        proof {
                            assert(false);
                        }
                        return Err(e);
                    },
                }
                let ins = self.insert_at(i, replacement);
                match ins {
                    Ok(_) => {},
                    Err(e) => {
                        proof {
                            assert(false);
                        }
                        return Err(e);
                    },
                }
                proof {
                    assert(self@ =~= w.take(i0) + replacement@ + w.skip(i0 + needle@.len()));
                    assert(is_match(w, needle@, i0) && (forall|j: int|
                        0 <= j < i0 ==> !is_match(w, needle@, j)) && self@ == w.take(i0)
                        + replacement@ + w.skip(i0 + needle@.len()));
                }
                Ok(Some(i))
            },
        }
    }

    /// Replace the first occurrence of `needle` with a replacement of the
    /// same length.  Returns whether a replacement happened.
    pub fn replace_first_same_len(&mut self, needle: &[u8], replacement: &[u8]) -> (r: Result<
        bool,
        RBError,
    >)
        requires
            old(self).wf(),
            needle@.len() == replacement@.len(),
        ensures
            final(self).wf(),
            needle@.len() == 0 ==> r == Ok::<bool, RBError>(false) && *final(self) == *old(self),
            (needle@.len() > 0 && (forall|j: int| !is_match(old(self)@, needle@, j))) ==> r
                == Ok::<bool, RBError>(false) && *final(self) == *old(self),
            (needle@.len() > 0 && (exists|j: int| is_match(old(self)@, needle@, j))) ==> r
                == Ok::<bool, RBError>(true) && (exists|i: int|
                {
                    &&& is_match(old(self)@, needle@, i)
                    &&& forall|j: int| 0 <= j < i ==> !is_match(old(self)@, needle@, j)
                    &&& final(self)@ == old(self)@.take(i) + replacement@ + old(self)@.skip(
                        i + needle@.len(),
                    )
                }),
    {
        if needle.len() == 0 {
            return Ok(false);
        }
        let res = self.replace_first(needle, replacement);
        match res {
            Ok(at) => Ok(at.is_some()),
            Err(e) => {
                proof {
                    assert(false);
                }
                Err(e)
            },
        }
    }


    /// The byte range `[start, end)` as leaf-contiguous chunks.  `end` is
    /// clamped to the document length, `start` to `end`; an empty range
    /// yields no chunks.
    pub fn slice(&self, start: usize, end: usize) -> (r: RopeSlice)
        requires
            self.wf(),
        ensures
            r.wf(),
            ({
                let e2 = vstd::math::min(end as int, self@.len() as int);
                let s2 = vstd::math::min(start as int, e2);
                concat_chunks(r@) == self@.subrange(s2, e2)
            }),
            forall|k: int| 0 <= k < r@.len() ==> #[trigger] r@[k].len() > 0,
    {
        let len = self.len();
        let e2: usize = if end < len {
            end
        } else {
            len
        };
        let s2: usize = if start < e2 {
            start
        } else {
            e2
        };
        let mut acc: Vec<Vec<u8>> = Vec::new();
        chunks_rec(&self.root, s2, e2, &mut acc);
        let r = RopeSlice { chunks: acc, idx: 0 };
        proof {
            lemma_view_concat(acc@, 0);
            assert(r@ =~= Seq::new(acc@.len(), |i: int| acc@[i]@));
        }
        r
    }


    /// The byte offset where the given line starts: offset zero for line
    /// zero, the byte just after the preceding newline for later lines, and
    /// nothing for lines past the last newline.
    pub fn offset_of_line(&self, line: usize) -> (r: Option<usize>)
        requires
            self.wf(),
        ensures
            r == if line == 0 {
                Some(0usize)
            } else if line <= count_nl(self@) {
                Some((nl_offsets(self@)[line - 1] + 1) as usize)
            } else {
                None::<usize>
            },
    {
        if line == 0 {
            return Some(0);
        }
        let total = self.total_lines();
        if line > total {
            return None;
        }
        Some(line_off_rec(&self.root, line))
    }

    /// The whole document as one vector.
    pub fn to_bytes(&self) -> (v: Vec<u8>)
        requires
            self.wf(),
        ensures
            v@ == self@,
    {
        let n = self.len();
        let v = read_rec(&self.root, 0, n);
        proof {
            assert(slice_clamped(self@, 0, n as int) =~= self@);
        }
        v
    }
}

/// The build-then-read round trip: a rope built from `data` holds exactly
/// `data` as its document, and a full-length read of that document copies
/// it back unchanged.  `build_from_bytes` ensures the first equality; this
/// law discharges the read: the clamped slice of the whole document from
/// offset zero is the document itself.
pub proof fn lemma_build_read_round_trip(data: Seq<u8>)
    ensures
        slice_clamped(data, 0, data.len() as int) == data,
{
    assert(slice_clamped(data, 0, data.len() as int) =~= data);
}

/// Inserting `s` at offset `i` and then deleting the same range restores
/// the document, byte for byte — and with it every byte-derived count,
/// newlines included.
pub proof fn lemma_insert_then_delete(doc: Seq<u8>, i: int, s: Seq<u8>)
    requires
        0 <= i <= doc.len(),
    ensures
        ({
            let inserted = doc.take(i) + s + doc.skip(i);
            inserted.take(i) + inserted.skip(i + s.len()) == doc
        }),
{
    let inserted = doc.take(i) + s + doc.skip(i);
    assert(inserted.take(i) + inserted.skip(i + s.len()) =~= doc);
}

/// Deleting the range `[i, i+n)` and then inserting the deleted bytes back
/// at `i` restores the document.
pub proof fn lemma_delete_then_insert(doc: Seq<u8>, i: int, n: int)
    requires
        0 <= i,
        0 <= n,
        i + n <= doc.len(),
    ensures
        ({
            let removed = doc.subrange(i, i + n);
            let deleted = doc.take(i) + doc.skip(i + n);
            deleted.take(i) + removed + deleted.skip(i) == doc
        }),
{
    let removed = doc.subrange(i, i + n);
    let deleted = doc.take(i) + doc.skip(i + n);
    assert(deleted.take(i) + removed + deleted.skip(i) =~= doc);
}

} // verus!
