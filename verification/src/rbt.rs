//! A red-black tree over `u64` keys: the balancing scaffold of the text
//! engine, kept with the multiset of its keys as its model and the colour
//! and black-height rules as its invariant.

use vstd::prelude::*;
use vstd::multiset::Multiset;

verus! {

#[derive(Debug, Clone, Copy, PartialEq, Eq, Structural)]
enum Color {
    Red,
    Black,
}

#[derive(Debug)]
struct KNode {
    key: u64,
    color: Color,
    left: Option<Box<KNode>>,
    right: Option<Box<KNode>>,
}

/// The keys a subtree holds, with multiplicity.
spec fn keys_of(o: Option<Box<KNode>>) -> Multiset<u64>
    decreases o,
{
    match o {
        None => Multiset::empty(),
        Some(n) => keys_of(n.left).add(keys_of(n.right)).insert(n.key),
    }
}

spec fn is_black(o: Option<Box<KNode>>) -> bool {
    match o {
        None => true,
        Some(n) => n.color == Color::Black,
    }
}

spec fn red_ok(o: Option<Box<KNode>>) -> bool
    decreases o,
{
    match o {
        None => true,
        Some(n) => {
            &&& (n.color == Color::Red ==> is_black(n.left) && is_black(n.right))
            &&& red_ok(n.left)
            &&& red_ok(n.right)
        },
    }
}

spec fn bh(o: Option<Box<KNode>>) -> nat
    decreases o,
{
    match o {
        None => 0,
        Some(n) => bh(n.left) + if n.color == Color::Black {
            1nat
        } else {
            0nat
        },
    }
}

spec fn bh_ok(o: Option<Box<KNode>>) -> bool
    decreases o,
{
    match o {
        None => true,
        Some(n) => bh_ok(n.left) && bh_ok(n.right) && bh(n.left) == bh(n.right),
    }
}

spec fn near_red_ok(n: Box<KNode>) -> bool {
    red_ok(n.left) && red_ok(n.right)
}

fn is_red(o: &Option<Box<KNode>>) -> (r: bool)
    ensures
        r == !is_black(*o),
{
    match o {
        None => false,
        Some(n) => n.color == Color::Red,
    }
}

/// Mend a black node whose left child may carry a top red-red pair.
#[verifier::rlimit(60)]
fn balance_left(key: u64, left: Box<KNode>, right: Option<Box<KNode>>) -> (r: Box<KNode>)
    requires
        bh_ok(Some(left)),
        bh_ok(right),
        bh(Some(left)) == bh(right),
        near_red_ok(left),
        red_ok(right),
    ensures
        keys_of(Some(r)) == keys_of(Some(left)).add(keys_of(right)).insert(key),
        bh_ok(Some(r)),
        bh(Some(r)) == bh(Some(left)) + 1,
        red_ok(Some(r)),
{
    let ghost l0 = left;
    proof {
        assert(keys_of(Some(l0)) == keys_of(l0.left).add(keys_of(l0.right)).insert(l0.key));
        assert(bh_ok(l0.left) && bh_ok(l0.right) && bh(l0.left) == bh(l0.right));
    }
    let mut l = left;
    if l.color == Color::Red && is_red(&l.left) {
        let ll = l.left.take().unwrap();
        proof {
            assert(l0.left == Some(ll));
            assert(keys_of(Some(ll)) == keys_of(ll.left).add(keys_of(ll.right)).insert(ll.key));
            assert(bh_ok(ll.left) && bh_ok(ll.right) && bh(ll.left) == bh(ll.right));
            assert(red_ok(Some(ll)) && red_ok(l0.right));
            assert(red_ok(ll.left) && red_ok(ll.right));
            assert(bh(Some(l0)) == bh(ll.left));
        }
        let nl = Box::new(KNode { key: ll.key, color: Color::Black, left: ll.left, right: ll.right });
        let nr = Box::new(KNode { key, color: Color::Black, left: l.right.take(), right });
        let res = Box::new(KNode { key: l.key, color: Color::Red, left: Some(nl), right: Some(nr) });
        proof {
            assert(keys_of(Some(res)) == keys_of(res.left).add(keys_of(res.right)).insert(l0.key));
            assert(keys_of(res.left) == keys_of(ll.left).add(keys_of(ll.right)).insert(ll.key));
            assert(keys_of(res.right) == keys_of(l0.right).add(keys_of(right)).insert(key));
            assert(keys_of(Some(res)) =~= keys_of(Some(l0)).add(keys_of(right)).insert(key));
            assert(bh(res.left) == bh(ll.left) + 1);
            assert(bh(res.right) == bh(l0.right) + 1);
            assert(bh(Some(res)) == bh(res.left));
            assert(bh_ok(res.left) && bh_ok(res.right));
            assert(red_ok(res.left) && red_ok(res.right));
            assert(red_ok(Some(res)));
        }
        res
    } else if l.color == Color::Red && is_red(&l.right) {
        let lr = l.right.take().unwrap();
        proof {
            assert(l0.right == Some(lr));
            assert(keys_of(Some(lr)) == keys_of(lr.left).add(keys_of(lr.right)).insert(lr.key));
            assert(bh_ok(lr.left) && bh_ok(lr.right) && bh(lr.left) == bh(lr.right));
            assert(red_ok(l0.left) && red_ok(Some(lr)));
            assert(red_ok(lr.left) && red_ok(lr.right));
            assert(bh(Some(lr)) == bh(lr.left));
            assert(bh(Some(l0)) == bh(l0.left));
        }
        let nl = Box::new(KNode { key: l.key, color: Color::Black, left: l.left.take(), right: lr.left });
        let nr = Box::new(KNode { key, color: Color::Black, left: lr.right, right });
        let res = Box::new(KNode { key: lr.key, color: Color::Red, left: Some(nl), right: Some(nr) });
        proof {
            assert(keys_of(Some(res)) == keys_of(res.left).add(keys_of(res.right)).insert(lr.key));
            assert(keys_of(res.left) == keys_of(l0.left).add(keys_of(lr.left)).insert(l0.key));
            assert(keys_of(res.right) == keys_of(lr.right).add(keys_of(right)).insert(key));
            assert(keys_of(Some(res)) =~= keys_of(Some(l0)).add(keys_of(right)).insert(key));
            assert(bh(res.left) == bh(l0.left) + 1);
            assert(bh(res.right) == bh(lr.right) + 1);
            assert(bh(Some(res)) == bh(res.left));
            assert(bh_ok(res.left) && bh_ok(res.right));
            assert(red_ok(res.left) && red_ok(res.right));
            assert(red_ok(Some(res)));
        }
        res
    } else {
        let res = Box::new(KNode { key, color: Color::Black, left: Some(l), right });
        proof {
            assert(l == l0);
            assert(red_ok(Some(l0)));
            assert(keys_of(Some(res)) =~= keys_of(Some(l0)).add(keys_of(right)).insert(key));
            assert(bh(Some(res)) == bh(Some(l0)) + 1);
            assert(bh_ok(Some(res)));
        }
        res
    }
}

/// Mirror of `balance_left`.
#[verifier::rlimit(60)]
fn balance_right(key: u64, left: Option<Box<KNode>>, right: Box<KNode>) -> (r: Box<KNode>)
    requires
        bh_ok(left),
        bh_ok(Some(right)),
        bh(left) == bh(Some(right)),
        red_ok(left),
        near_red_ok(right),
    ensures
        keys_of(Some(r)) == keys_of(left).add(keys_of(Some(right))).insert(key),
        bh_ok(Some(r)),
        bh(Some(r)) == bh(left) + 1,
        red_ok(Some(r)),
{
    let ghost r0 = right;
    let ghost left0 = left;
    proof {
        assert(keys_of(Some(r0)) == keys_of(r0.left).add(keys_of(r0.right)).insert(r0.key));
        assert(bh_ok(r0.left) && bh_ok(r0.right) && bh(r0.left) == bh(r0.right));
    }
    let mut rt = right;
    if rt.color == Color::Red && is_red(&rt.right) {
        let rr = rt.right.take().unwrap();
        proof {
            assert(r0.right == Some(rr));
            assert(keys_of(Some(rr)) == keys_of(rr.left).add(keys_of(rr.right)).insert(rr.key));
            assert(bh_ok(rr.left) && bh_ok(rr.right) && bh(rr.left) == bh(rr.right));
            assert(red_ok(r0.left) && red_ok(Some(rr)));
            assert(red_ok(rr.left) && red_ok(rr.right));
            assert(bh(Some(r0)) == bh(r0.left));
            assert(bh(Some(rr)) == bh(rr.left));
        }
        let nl = Box::new(KNode { key, color: Color::Black, left, right: rt.left.take() });
        let nr = Box::new(KNode { key: rr.key, color: Color::Black, left: rr.left, right: rr.right });
        let res = Box::new(KNode { key: rt.key, color: Color::Red, left: Some(nl), right: Some(nr) });
        proof {
            assert(keys_of(Some(res)) == keys_of(res.left).add(keys_of(res.right)).insert(r0.key));
            assert(keys_of(res.left) == keys_of(left0).add(keys_of(r0.left)).insert(key));
            assert(keys_of(res.right) == keys_of(rr.left).add(keys_of(rr.right)).insert(rr.key));
            assert(keys_of(Some(res)) =~= keys_of(left0).add(keys_of(Some(r0))).insert(key));
            assert(bh(res.left) == bh(left0) + 1);
            assert(bh(res.right) == bh(rr.left) + 1);
            assert(bh(Some(res)) == bh(res.left));
            assert(bh_ok(res.left) && bh_ok(res.right));
            assert(red_ok(res.left) && red_ok(res.right));
            assert(red_ok(Some(res)));
        }
        res
    } else if rt.color == Color::Red && is_red(&rt.left) {
        let rl = rt.left.take().unwrap();
        proof {
            assert(r0.left == Some(rl));
            assert(keys_of(Some(rl)) == keys_of(rl.left).add(keys_of(rl.right)).insert(rl.key));
            assert(bh_ok(rl.left) && bh_ok(rl.right) && bh(rl.left) == bh(rl.right));
            assert(red_ok(Some(rl)) && red_ok(r0.right));
            assert(red_ok(rl.left) && red_ok(rl.right));
            assert(bh(Some(r0)) == bh(r0.left));
            assert(bh(Some(rl)) == bh(rl.left));
        }
        let nl = Box::new(KNode { key, color: Color::Black, left, right: rl.left });
        let nr = Box::new(KNode { key: rt.key, color: Color::Black, left: rl.right, right: rt.right.take() });
        let res = Box::new(KNode { key: rl.key, color: Color::Red, left: Some(nl), right: Some(nr) });
        proof {
            assert(keys_of(Some(res)) == keys_of(res.left).add(keys_of(res.right)).insert(rl.key));
            assert(keys_of(res.left) == keys_of(left0).add(keys_of(rl.left)).insert(key));
            assert(keys_of(res.right) == keys_of(rl.right).add(keys_of(r0.right)).insert(r0.key));
            assert(keys_of(Some(res)) =~= keys_of(left0).add(keys_of(Some(r0))).insert(key));
            assert(bh(res.left) == bh(left0) + 1);
            assert(bh(res.right) == bh(rl.right) + 1);
            assert(bh(Some(res)) == bh(res.left));
            assert(bh_ok(res.left) && bh_ok(res.right));
            assert(red_ok(res.left) && red_ok(res.right));
            assert(red_ok(Some(res)));
        }
        res
    } else {
        let res = Box::new(KNode { key, color: Color::Black, left, right: Some(rt) });
        proof {
            assert(rt == r0);
            assert(red_ok(Some(r0)));
            assert(keys_of(Some(res)) =~= keys_of(left0).add(keys_of(Some(r0))).insert(key));
            assert(bh(Some(res)) == bh(left0) + 1);
            assert(bh_ok(Some(res)));
        }
        res
    }
}

/// Okasaki-style insertion: smaller keys go left, equal and larger keys go
/// right; the way back up rebalances.
fn ins(o: Option<Box<KNode>>, key: u64) -> (r: Box<KNode>)
    requires
        red_ok(o),
        bh_ok(o),
    ensures
        keys_of(Some(r)) == keys_of(o).insert(key),
        bh_ok(Some(r)),
        bh(Some(r)) == bh(o),
        near_red_ok(r),
        is_black(o) ==> red_ok(Some(r)),
    decreases o,
{
    match o {
        None => {
            let r = Box::new(KNode { key, color: Color::Red, left: None, right: None });
            proof {
                assert(keys_of(Some(r)) =~= keys_of(None::<Box<KNode>>).insert(key));
            }
            r
        },
        Some(n) => {
            let ghost n0 = n;
            let mut n = n;
            if key < n.key {
                let lsub = n.left.take();
                let nl = ins(lsub, key);
                if n.color == Color::Black {
                    let res = balance_left(n.key, nl, n.right.take());
                    proof {
                        assert(keys_of(Some(res)) =~= keys_of(Some(n0)).insert(key));
                    }
                    res
                } else {
                    proof {
                        assert(is_black(n0.left));
                    }
                    let res = Box::new(
                        KNode { key: n.key, color: Color::Red, left: Some(nl), right: n.right.take() },
                    );
                    proof {
                        assert(keys_of(Some(res)) =~= keys_of(Some(n0)).insert(key));
                        assert(bh(Some(res)) == bh(Some(n0)));
                        assert(bh_ok(Some(res)));
                    }
                    res
                }
            } else {
                let rsub = n.right.take();
                let nr = ins(rsub, key);
                if n.color == Color::Black {
                    let res = balance_right(n.key, n.left.take(), nr);
                    proof {
                        assert(keys_of(Some(res)) =~= keys_of(Some(n0)).insert(key));
                    }
                    res
                } else {
                    proof {
                        assert(is_black(n0.right));
                    }
                    let res = Box::new(
                        KNode { key: n.key, color: Color::Red, left: n.left.take(), right: Some(nr) },
                    );
                    proof {
                        assert(keys_of(Some(res)) =~= keys_of(Some(n0)).insert(key));
                        assert(bh(Some(res)) == bh(Some(n0)));
                        assert(bh_ok(Some(res)));
                    }
                    res
                }
            }
        },
    }
}

fn contains_rec(o: &Option<Box<KNode>>, key: u64) -> (r: bool)
    ensures
        r == (keys_of(*o).count(key) > 0),
    decreases *o,
{
    match o {
        None => false,
        Some(n) => {
            if n.key == key {
                return true;
            }
            let l = contains_rec(&n.left, key);
            if l {
                return true;
            }
            contains_rec(&n.right, key)
        },
    }
}

/// A red-black tree over `u64` keys, allowing duplicates.
#[derive(Debug)]
pub struct RBTree {
    root: Option<Box<KNode>>,
}

impl RBTree {
    /// The keys the tree holds, with multiplicity.
    pub closed spec fn view(&self) -> Multiset<u64> {
        keys_of(self.root)
    }

    /// The red-black invariant: a black root, no red node with a red
    /// child, and equal black height on every path.
    pub closed spec fn wf(&self) -> bool {
        red_ok(self.root) && bh_ok(self.root) && is_black(self.root)
    }

    pub fn new() -> (r: RBTree)
        ensures
            r.wf(),
            r@ == Multiset::<u64>::empty(),
    {
        RBTree { root: None }
    }

    /// Insert a key; duplicates accumulate.
    pub fn insert(&mut self, key: u64) -> (r: Result<(), &'static str>)
        requires
            old(self).wf(),
        ensures
            r is Ok,
            final(self).wf(),
            final(self)@ == old(self)@.insert(key),
    {
        let mut n = ins(self.root.take(), key);
        n.color = Color::Black;
        self.root = Some(n);
        Ok(())
    }

    /// Look a key up; the key itself comes back when it is present.
    pub fn search(&self, key: u64) -> (r: Option<u64>)
        ensures
            r == if self@.count(key) > 0 {
                Some(key)
            } else {
                None::<u64>
            },
    {
        if contains_rec(&self.root, key) {
            Some(key)
        } else {
            None
        }
    }

    /// Check the red-black colour and height properties at run time: the
    /// result is exactly the invariant, so on trees built through this
    /// interface the check cannot fail.
    pub fn is_valid(&self) -> (r: bool)
        ensures
            r == self.wf(),
    {
        match &self.root {
            None => true,
            Some(n) => {
                if n.color == Color::Red {
                    return false;
                }
                valid_rec(&self.root)
            },
        }
    }
}

/// Runtime check of `red_ok`, `bh_ok` and equal black heights; returns the
/// truth of exactly that conjunction.
fn valid_rec(o: &Option<Box<KNode>>) -> (r: bool)
    ensures
        r == (red_ok(*o) && bh_ok(*o)),
    decreases *o,
{
    match o {
        None => true,
        Some(n) => {
            if n.color == Color::Red {
                if is_red(&n.left) || is_red(&n.right) {
                    return false;
                }
            }
            let lv = valid_rec(&n.left);
            if !lv {
                return false;
            }
            let rv = valid_rec(&n.right);
            if !rv {
                return false;
            }
            bh_eq(&n.left, &n.right)
        },
    }
}

/// Step past the next black node on the left spine.
fn spine_next<'a>(o: &'a Option<Box<KNode>>) -> (r: Option<&'a Option<Box<KNode>>>)
    ensures
        match r {
            None => bh(*o) == 0,
            Some(rest) => bh(*o) == bh(*rest) + 1,
        },
    decreases *o,
{
    match o {
        None => None,
        Some(n) => {
            if n.color == Color::Black {
                Some(&n.left)
            } else {
                spine_next(&n.left)
            }
        },
    }
}

/// Compare the black heights of two subtrees by walking their left spines
/// in lockstep.
fn bh_eq(a: &Option<Box<KNode>>, b: &Option<Box<KNode>>) -> (r: bool)
    ensures
        r == (bh(*a) == bh(*b)),
    decreases bh(*a),
{
    let sa = spine_next(a);
    let sb = spine_next(b);
    match (sa, sb) {
        (None, None) => true,
        (Some(x), Some(y)) => bh_eq(x, y),
        _ => false,
    }
}

} // verus!
