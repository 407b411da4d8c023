//! A compressed, indexable sequence container.
//!
//! Logically the container behaves like a random-access array of `i32`
//! values, but runs of adjacent equal elements are stored once with a
//! repetition count.  The backing store is a height-balanced binary tree of
//! interval nodes, each owning one value and the half-open index range over
//! which that value applies.

use vstd::prelude::*;

mod rotations;

verus! {

/// The single failure mode: a requested index lies outside the valid range.
/// `count` is the container's total length at the time of the failure and
/// `index` the offending index.
#[derive(Debug, PartialEq, Eq, Structural)]
pub enum IntervalVecErr {
    OutOfRange { count: usize, index: usize },
}

/// One tree node: the value `element` applies to the logical indices
/// `[start, start + count)`.  The left subtree covers exactly the contiguous
/// index range ending at `start`, the right subtree the contiguous range
/// beginning at `start + count`.  `height` caches the height of the subtree
/// rooted here so that rebalancing checks are constant time.
pub struct IntervalNode {
    pub(crate) element: i32,
    pub(crate) start: usize,
    pub(crate) count: usize,
    pub(crate) height: usize,
    pub(crate) left: Option<Box<IntervalNode>>,
    pub(crate) right: Option<Box<IntervalNode>>,
}

/// The user-facing container: an optional tree root and the total logical
/// element count, maintained incrementally.
pub struct IntervalVec {
    head: Option<Box<IntervalNode>>,
    count: usize,
}

/// The sequence of values represented by an optional subtree.
pub open(crate) spec fn opt_seq(o: Option<Box<IntervalNode>>) -> Seq<i32>
    decreases o,
{
    match o {
        Option::None => Seq::empty(),
        Option::Some(n) => n.seq(),
    }
}

/// The height of an optional subtree; an absent subtree has height 0.
pub open(crate) spec fn opt_hgt(o: Option<Box<IntervalNode>>) -> nat
    decreases o,
{
    match o {
        Option::None => 0,
        Option::Some(n) => n.hgt(),
    }
}

impl IntervalNode {
    /// The sequence of values this subtree represents, in index order.
    pub open(crate) spec fn seq(self) -> Seq<i32>
        decreases self,
    {
        opt_seq(self.left) + Seq::new(self.count as nat, |i: int| self.element) + opt_seq(
            self.right,
        )
    }

    /// The first logical index covered by this subtree.
    pub open(crate) spec fn lo(self) -> int
        decreases self,
    {
        match self.left {
            Option::None => self.start as int,
            Option::Some(l) => l.lo(),
        }
    }

    /// One past the last logical index covered by this subtree.
    pub open(crate) spec fn hi(self) -> int
        decreases self,
    {
        match self.right {
            Option::None => self.start + self.count,
            Option::Some(r) => r.hi(),
        }
    }

    /// The true height of this subtree.
    pub open(crate) spec fn hgt(self) -> nat
        decreases self,
    {
        1 + if opt_hgt(self.left) >= opt_hgt(self.right) {
            opt_hgt(self.left)
        } else {
            opt_hgt(self.right)
        }
    }

    /// Well-formedness: every run is non-empty, index arithmetic cannot
    /// overflow, the cached height is the true height, and the children
    /// cover exactly the index ranges adjacent to this node's run.
    pub open(crate) spec fn wf(self) -> bool
        decreases self,
    {
        &&& 1 <= self.count
        &&& self.start + self.count <= usize::MAX
        &&& self.height == self.hgt()
        &&& match self.left {
            Option::None => true,
            Option::Some(l) => l.wf() && l.hi() == self.start,
        }
        &&& match self.right {
            Option::None => true,
            Option::Some(r) => r.wf() && r.lo() == self.start + self.count,
        }
    }
}

/// Facts every well-formed subtree satisfies: it represents exactly the
/// indices `[lo, hi)`, its own run lies inside that range, the children's
/// sequences have the lengths the range arithmetic dictates, and the height
/// is at most the number of represented elements.
pub(crate) proof fn lemma_wf_props(n: IntervalNode)
    requires
        n.wf(),
    ensures
        n.seq().len() == n.hi() - n.lo(),
        0 <= n.lo(),
        n.lo() <= n.start,
        n.start + n.count <= n.hi(),
        n.hi() <= usize::MAX,
        opt_seq(n.left).len() == n.start - n.lo(),
        opt_seq(n.right).len() == n.hi() - (n.start + n.count),
        n.hgt() <= n.seq().len(),
        match n.left {
            Option::None => true,
            Option::Some(l) => l.wf() && l.hi() == n.start,
        },
        match n.right {
            Option::None => true,
            Option::Some(r) => r.wf() && r.lo() == n.start + n.count,
        },
    decreases n,
{
    match n.left {
        Option::None => {},
        Option::Some(l) => {
            lemma_wf_props(*l);
        },
    }
    match n.right {
        Option::None => {},
        Option::Some(r) => {
            lemma_wf_props(*r);
        },
    }
}

/// Node-for-node relation of a subtree before and after an index shift:
/// every node keeps its element, count, cached height and place in the
/// tree, and every node's `start` rises by exactly one.
pub closed spec fn shifted(pre: IntervalNode, post: IntervalNode) -> bool
    decreases pre,
{
    &&& post.element == pre.element
    &&& post.count == pre.count
    &&& post.start == pre.start + 1
    &&& post.height == pre.height
    &&& shifted_opt(pre.left, post.left)
    &&& shifted_opt(pre.right, post.right)
}

/// `shifted`, lifted to an optional subtree: both absent, or both present
/// and shifted node for node.
pub closed spec fn shifted_opt(pre: Option<Box<IntervalNode>>, post: Option<Box<IntervalNode>>) -> bool
    decreases pre,
{
    match (pre, post) {
        (Option::None, Option::None) => true,
        (Option::Some(a), Option::Some(b)) => shifted(*a, *b),
        _ => false,
    }
}

/// The structural outcome of splitting one run around `index`: the node
/// shrinks to exactly the one position `index` holding the new value; when
/// run indices lie strictly before `index` a left remainder node keeps them
/// with the old value and the pre-existing left subtree beneath it (else
/// that subtree stays in place), and symmetrically on the right.  Nothing
/// else of the tree is touched.
pub closed spec fn split_shape(pre: IntervalNode, post: IntervalNode, index: int, element: i32) -> bool {
    &&& post.count == 1
    &&& post.start == index
    &&& post.element == element
    &&& if index > pre.start {
        match post.left {
            Option::Some(l) => l.element == pre.element && l.start == pre.start && l.count
                == index - pre.start && l.left == pre.left && l.right is None,
            Option::None => false,
        }
    } else {
        post.left == pre.left
    }
    &&& if index + 1 < pre.start + pre.count {
        match post.right {
            Option::Some(r) => r.element == pre.element && r.start == index + 1 && r.count
                == pre.start + pre.count - (index + 1) && r.right == pre.right && r.left
                is None,
            Option::None => false,
        }
    } else {
        post.right == pre.right
    }
}

/// The structural outcome of a successful `set` on a subtree: the search
/// path descends to the landing node, every node along it keeps its run and
/// its off-path subtree untouched, an equal-value overwrite changes nothing
/// at all, and a differing value splits exactly the landing node.  In
/// particular no rebalancing happens anywhere.
pub closed spec fn set_post(pre: IntervalNode, post: IntervalNode, index: int, element: i32) -> bool
    decreases pre,
{
    if index < pre.start {
        &&& post.element == pre.element
        &&& post.start == pre.start
        &&& post.count == pre.count
        &&& post.right == pre.right
        &&& match (pre.left, post.left) {
            (Option::Some(a), Option::Some(b)) => set_post(*a, *b, index, element),
            _ => false,
        }
    } else if index >= pre.start + pre.count {
        &&& post.element == pre.element
        &&& post.start == pre.start
        &&& post.count == pre.count
        &&& post.left == pre.left
        &&& match (pre.right, post.right) {
            (Option::Some(a), Option::Some(b)) => set_post(*a, *b, index, element),
            _ => false,
        }
    } else if element == pre.element {
        post == pre
    } else {
        split_shape(pre, post, index, element)
    }
}

impl IntervalNode {
    /// Position-aware lookup: descend to whichever side's index range
    /// contains `index`, or answer from this node's own run.
    fn get(&self, index: usize) -> (r: Option<i32>)
        requires
            self.wf(),
        ensures
            match r {
                Option::Some(v) => self.lo() <= index < self.hi() && v == self.seq()[index
                    - self.lo()],
                Option::None => !(self.lo() <= index < self.hi()),
            },
        decreases *self,
    {
        proof {
            lemma_wf_props(*self);
        }
        if index < self.start {
            match &self.left {
                Option::Some(node) => {
                    proof {
                        lemma_wf_props(**node);
                    }
                    node.get(index)
                },
                Option::None => None,
            }
        } else if index >= self.start + self.count {
            match &self.right {
                Option::Some(node) => {
                    proof {
                        lemma_wf_props(**node);
                    }
                    let ghost k = index - node.lo();
                    let r = node.get(index);
                    proof {
                        if r is Some {
                            assert(self.seq()[index - self.lo()] == opt_seq(self.right)[k]);
                        }
                    }
                    r
                },
                Option::None => None,
            }
        } else {
            proof {
                assert(self.seq()[index - self.lo()] == self.element);
            }
            Some(self.element)
        }
    }

    /// Split this node so that only the single index `index` changes value:
    /// when indices of the run lie strictly before `index`, a left remainder
    /// node keeps them with the old value (the pre-existing left subtree
    /// re-attached beneath it), and symmetrically a right remainder keeps the
    /// indices strictly after `index`; this node shrinks to exactly the one
    /// overwritten position.  The represented length never changes.
    #[verifier::rlimit(100)]
    fn replace_node(&mut self, index: usize, element: i32)
        requires
            old(self).wf(),
            old(self).start <= index < old(self).start + old(self).count,
        ensures
            final(self).wf(),
            final(self).lo() == old(self).lo(),
            final(self).hi() == old(self).hi(),
            final(self).seq() == old(self).seq().update(index - old(self).lo(), element),
            split_shape(*old(self), *final(self), index as int, element),
    {
        proof {
            lemma_wf_props(*old(self));
        }
        let k = index - self.start;
        let m = self.count - k - 1;
        let old_element = self.element;
        let old_start = self.start;

        self.count = 1;
        self.element = element;
        self.start = index;

        if k > 0 {
            let old_left = self.left.take();
            proof {
                match &old_left {
                    Option::None => {},
                    Option::Some(l) => {
                        lemma_wf_props(**l);
                    },
                }
            }
            let h = 1 + rotations::opt_node_height(&old_left);
            self.left = Some(
                Box::new(
                    IntervalNode {
                        element: old_element,
                        start: old_start,
                        count: k,
                        height: h,
                        left: old_left,
                        right: None,
                    },
                ),
            );
        }
        if m > 0 {
            let old_right = self.right.take();
            proof {
                match &old_right {
                    Option::None => {},
                    Option::Some(r) => {
                        lemma_wf_props(**r);
                    },
                }
            }
            let h = 1 + rotations::opt_node_height(&old_right);
            self.right = Some(
                Box::new(
                    IntervalNode {
                        element: old_element,
                        start: index + 1,
                        count: m,
                        height: h,
                        left: None,
                        right: old_right,
                    },
                ),
            );
        }
        proof {
            match &self.left {
                Option::None => {},
                Option::Some(l) => {
                    lemma_wf_props(**l);
                },
            }
            match &self.right {
                Option::None => {},
                Option::Some(r) => {
                    lemma_wf_props(**r);
                },
            }
        }
        let lh = rotations::opt_node_height(&self.left);
        let rh = rotations::opt_node_height(&self.right);
        self.height = 1 + (if lh >= rh {
            lh
        } else {
            rh
        });
        proof {
            match &self.left {
                Option::None => {},
                Option::Some(l) => {
                    assert((**l).wf());
                    assert((**l).hi() == self.start);
                },
            }
            match &self.right {
                Option::None => {},
                Option::Some(r) => {
                    assert((**r).wf());
                    assert((**r).lo() == self.start + self.count);
                },
            }
            assert(self.wf());
            let av = opt_seq(old(self).left);
            let cv = opt_seq(old(self).right);
            let v = old(self).element;
            let c = old(self).count as int;
            let a = av.len() as int;
            let pos = index - old(self).lo();
            let oldseq = old(self).seq();
            let newseq = final(self).seq();
            assert(oldseq.len() == a + c + cv.len());
            assert(opt_seq(final(self).left).len() == a + k);
            assert(opt_seq(final(self).right).len() == (c - 1 - k) + cv.len());
            assert(newseq.len() == a + c + cv.len());
            assert(pos == a + k);
            assert forall|j: int| 0 <= j < oldseq.len() implies newseq[j] == oldseq.update(
                pos,
                element,
            )[j] by {
                if j < a {
                    assert(oldseq[j] == av[j]);
                    assert(opt_seq(final(self).left)[j] == av[j]);
                    assert(newseq[j] == av[j]);
                } else if j < a + k {
                    assert(oldseq[j] == v);
                    assert(opt_seq(final(self).left)[j] == v);
                    assert(newseq[j] == v);
                } else if j == pos {
                    assert(newseq[j] == element);
                } else if j < a + c {
                    assert(oldseq[j] == v);
                    assert(opt_seq(final(self).right)[j - (a + k + 1)] == v);
                    assert(newseq[j] == v);
                } else {
                    assert(oldseq[j] == cv[j - (a + c)]);
                    assert(opt_seq(final(self).right)[j - (a + k + 1)] == cv[j - (a + c)]);
                    assert(newseq[j] == cv[j - (a + c)]);
                }
            }
            assert(newseq =~= oldseq.update(pos, element));
        }
    }

    /// Overwrite the element at `index` inside this subtree.  Equal values
    /// are a structural no-op; a differing value splits the landing node.
    /// No rebalancing is performed: rotation belongs to insertion alone.
    #[verifier::rlimit(100)]
    fn set(&mut self, index: usize, element: i32) -> (r: Result<(), ()>)
        requires
            old(self).wf(),
        ensures
            final(self).wf(),
            final(self).lo() == old(self).lo(),
            final(self).hi() == old(self).hi(),
            r is Ok <==> old(self).lo() <= index < old(self).hi(),
            r is Ok ==> final(self).seq() == old(self).seq().update(
                index - old(self).lo(),
                element,
            ),
            r is Ok ==> set_post(*old(self), *final(self), index as int, element),
            old(self).lo() <= index < old(self).hi() && old(self).seq()[index - old(self).lo()]
                == element ==> *final(self) == *old(self),
            r is Err ==> *final(self) == *old(self),
        decreases *old(self),
    {
        proof {
            lemma_wf_props(*old(self));
        }
        if index < self.start {
            match self.left.take() {
                Option::Some(mut node) => {
                    let r = (&mut *node).set(index, element);
                    self.left = Some(node);
                    match r {
                        Result::Ok(()) => {
                            proof {
                                match &self.left {
                                    Option::None => {},
                                    Option::Some(l) => {
                                        lemma_wf_props(**l);
                                    },
                                }
                            }
                            let lh = rotations::opt_node_height(&self.left);
                            let rh = rotations::opt_node_height(&self.right);
                            self.height = 1 + (if lh >= rh {
                                lh
                            } else {
                                rh
                            });
                            proof {
                                assert(final(self).seq() =~= old(self).seq().update(
                                    index - old(self).lo(),
                                    element,
                                ));
                            }
                            Ok(())
                        },
                        Result::Err(()) => Err(()),
                    }
                },
                Option::None => Err(()),
            }
        } else if index >= self.start + self.count {
            match self.right.take() {
                Option::Some(mut node) => {
                    proof {
                        lemma_wf_props(*node);
                    }
                    let r = (&mut *node).set(index, element);
                    self.right = Some(node);
                    match r {
                        Result::Ok(()) => {
                            proof {
                                match &self.right {
                                    Option::None => {},
                                    Option::Some(rc) => {
                                        lemma_wf_props(**rc);
                                    },
                                }
                            }
                            let lh = rotations::opt_node_height(&self.left);
                            let rh = rotations::opt_node_height(&self.right);
                            self.height = 1 + (if lh >= rh {
                                lh
                            } else {
                                rh
                            });
                            proof {
                                assert(final(self).seq() =~= old(self).seq().update(
                                    index - old(self).lo(),
                                    element,
                                ));
                            }
                            Ok(())
                        },
                        Result::Err(()) => Err(()),
                    }
                },
                Option::None => Err(()),
            }
        } else {
            if element == self.element {
                proof {
                    assert(final(self).seq() =~= old(self).seq().update(
                        index - old(self).lo(),
                        element,
                    ));
                }
                Ok(())
            } else {
                self.replace_node(index, element);
                Ok(())
            }
        }
    }

    /// Insert a new element at `index` inside this subtree, shifting every
    /// element at or after `index` one position to the right.  Landing
    /// inside a run grows the run when the value matches and splits it
    /// otherwise; landing one past the subtree's range appends a fresh
    /// node.  On the way back up, rotation is attempted at every ancestor.
    /// A failed insertion leaves the subtree untouched.
    #[verifier::rlimit(100)]
    fn insert(&mut self, index: usize, element: i32) -> (r: Result<(), ()>)
        requires
            old(self).wf(),
            old(self).hi() < usize::MAX,
        ensures
            final(self).wf(),
            r is Ok <==> old(self).lo() <= index <= old(self).hi(),
            r is Ok ==> final(self).lo() == old(self).lo() && final(self).hi() == old(self).hi()
                + 1,
            r is Ok ==> final(self).seq() == old(self).seq().insert(
                index - old(self).lo(),
                element,
            ),
            r is Err ==> *final(self) == *old(self),
        decreases *old(self),
    {
        proof {
            lemma_wf_props(*old(self));
        }
        if index < self.start {
            match self.left.take() {
                Option::Some(mut node) => {
                    proof {
                        lemma_wf_props(*node);
                    }
                    let r = (&mut *node).insert(index, element);
                    self.left = Some(node);
                    match r {
                        Result::Ok(()) => {
                            self.start = self.start + 1;
                            match self.right.take() {
                                Option::Some(mut rn) => {
                                    proof {
                                        lemma_wf_props(*rn);
                                    }
                                    (&mut *rn).increase_start();
                                    self.right = Some(rn);
                                },
                                Option::None => {},
                            }
                            proof {
                                match &self.left {
                                    Option::None => {},
                                    Option::Some(l) => {
                                        lemma_wf_props(**l);
                                    },
                                }
                            }
                            let lh = rotations::opt_node_height(&self.left);
                            let rh = rotations::opt_node_height(&self.right);
                            self.height = 1 + (if lh >= rh {
                                lh
                            } else {
                                rh
                            });
                            proof {
                                assert(self.wf());
                                assert(self.lo() == old(self).lo());
                                assert(self.hi() == old(self).hi() + 1);
                                assert(self.seq() =~= old(self).seq().insert(
                                    index - old(self).lo(),
                                    element,
                                ));
                            }
                            self.rotate();
                            Ok(())
                        },
                        Result::Err(()) => Err(()),
                    }
                },
                Option::None => Err(()),
            }
        } else if index >= self.start + self.count {
            match self.right.take() {
                Option::Some(mut node) => {
                    proof {
                        lemma_wf_props(*node);
                    }
                    let r = (&mut *node).insert(index, element);
                    self.right = Some(node);
                    match r {
                        Result::Ok(()) => {
                            proof {
                                match &self.right {
                                    Option::None => {},
                                    Option::Some(rc) => {
                                        lemma_wf_props(**rc);
                                    },
                                }
                            }
                            let lh = rotations::opt_node_height(&self.left);
                            let rh = rotations::opt_node_height(&self.right);
                            self.height = 1 + (if lh >= rh {
                                lh
                            } else {
                                rh
                            });
                            proof {
                                assert(self.wf());
                                assert(self.lo() == old(self).lo());
                                assert(self.hi() == old(self).hi() + 1);
                                assert(self.seq() =~= old(self).seq().insert(
                                    index - old(self).lo(),
                                    element,
                                ));
                            }
                            self.rotate();
                            Ok(())
                        },
                        Result::Err(()) => Err(()),
                    }
                },
                Option::None => {
                    if index == self.start + self.count {
                        self.right = Some(
                            Box::new(
                                IntervalNode {
                                    element,
                                    start: index,
                                    count: 1,
                                    height: 1,
                                    left: None,
                                    right: None,
                                },
                            ),
                        );
                        proof {
                            match &self.right {
                                Option::None => {},
                                Option::Some(rc) => {
                                    assert((**rc).wf());
                                    assert((**rc).hi() == index + 1);
                                    assert((**rc).lo() == index);
                                    assert((**rc).seq() =~= Seq::new(1, |i: int| element));
                                },
                            }
                        }
                        let lh = rotations::opt_node_height(&self.left);
                        let rh = rotations::opt_node_height(&self.right);
                        self.height = 1 + (if lh >= rh {
                            lh
                        } else {
                            rh
                        });
                        proof {
                            assert(self.wf());
                            assert(self.lo() == old(self).lo());
                            assert(self.hi() == old(self).hi() + 1);
                            let pos = index - old(self).lo();
                            let oldseq = old(self).seq();
                            oldseq.insert_ensures(pos, element);
                            assert(self.seq().len() == oldseq.len() + 1);
                            assert forall|j: int| 0 <= j < oldseq.len() + 1 implies self.seq()[j]
                                == oldseq.insert(pos, element)[j] by {
                                let run = Seq::new(
                                    old(self).count as nat,
                                    |i: int| old(self).element,
                                );
                                let front = opt_seq(old(self).left) + run;
                                if j < pos {
                                    assert(oldseq[j] == front[j]);
                                    assert(self.seq()[j] == front[j]);
                                } else {
                                    assert(self.seq()[j] == element);
                                }
                            }
                            assert(self.seq() =~= oldseq.insert(pos, element));
                        }
                        self.rotate();
                        Ok(())
                    } else {
                        Err(())
                    }
                },
            }
        } else {
            self.insert_in_run(index, element);
            self.rotate();
            Ok(())
        }
    }

    /// Insertion that lands inside this node's own run: the right subtree
    /// shifts one position, the run grows by one, and when the new value
    /// differs from the run's value the grown run is split around it.
    #[verifier::rlimit(100)]
    fn insert_in_run(&mut self, index: usize, element: i32)
        requires
            old(self).wf(),
            old(self).hi() < usize::MAX,
            old(self).start <= index < old(self).start + old(self).count,
        ensures
            final(self).wf(),
            final(self).lo() == old(self).lo(),
            final(self).hi() == old(self).hi() + 1,
            final(self).seq() == old(self).seq().insert(index - old(self).lo(), element),
            element == old(self).element ==> final(self).element == old(self).element,
            element == old(self).element ==> final(self).start == old(self).start,
            element == old(self).element ==> final(self).count == old(self).count + 1,
            element == old(self).element ==> final(self).left == old(self).left,
            element == old(self).element ==> shifted_opt(old(self).right, final(self).right),
    {
        proof {
            lemma_wf_props(*old(self));
        }
        match self.right.take() {
            Option::Some(mut rn) => {
                proof {
                    lemma_wf_props(*rn);
                }
                (&mut *rn).increase_start();
                self.right = Some(rn);
            },
            Option::None => {},
        }
        self.count = self.count + 1;
        proof {
            match &self.right {
                Option::None => {},
                Option::Some(rc) => {
                    lemma_wf_props(**rc);
                },
            }
            assert(self.wf());
        }
        let ghost grown = *self;
        if element != self.element {
            self.replace_node(index, element);
        }
        proof {
            let pos = index - old(self).lo();
            let oldseq = old(self).seq();
            let newseq = self.seq();
            let av = opt_seq(old(self).left);
            let cv = opt_seq(old(self).right);
            let v = old(self).element;
            let c = old(self).count as int;
            let a = av.len() as int;
            assert(opt_seq(grown.right) == cv);
            assert(grown.seq().len() == a + c + 1 + cv.len());
            if element != v {
                assert(newseq == grown.seq().update(pos, element));
            } else {
                assert(newseq == grown.seq());
            }
            assert forall|j: int| 0 <= j < oldseq.len() + 1 implies newseq[j] == oldseq.insert(
                pos,
                element,
            )[j] by {
                if j < a {
                    assert(grown.seq()[j] == av[j]);
                    assert(oldseq[j] == av[j]);
                } else if j < pos {
                    assert(grown.seq()[j] == v);
                    assert(oldseq[j] == v);
                } else if j == pos {
                    assert(grown.seq()[j] == v);
                } else if j < a + c + 1 {
                    assert(grown.seq()[j] == v);
                    assert(oldseq[j - 1] == v);
                } else {
                    assert(grown.seq()[j] == cv[j - (a + c + 1)]);
                    assert(oldseq[j - 1] == cv[j - 1 - (a + c)]);
                }
            }
            assert(newseq =~= oldseq.insert(pos, element));
        }
    }

    /// Shift the index range of every node in this subtree one position to
    /// the right, after an element was inserted before it: applied to the
    /// whole subtree unconditionally, raising every node's `start` by
    /// exactly one and touching nothing else.
    fn increase_start(&mut self)
        requires
            old(self).wf(),
            old(self).hi() < usize::MAX,
        ensures
            final(self).wf(),
            shifted(*old(self), *final(self)),
            final(self).seq() == old(self).seq(),
            final(self).lo() == old(self).lo() + 1,
            final(self).hi() == old(self).hi() + 1,
            final(self).hgt() == old(self).hgt(),
            final(self).height == old(self).height,
        decreases *old(self),
    {
        proof {
            lemma_wf_props(*old(self));
        }
        self.start = self.start + 1;
        match self.left.take() {
            Option::Some(mut node) => {
                (&mut *node).increase_start();
                self.left = Some(node);
            },
            Option::None => {},
        }
        match self.right.take() {
            Option::Some(mut node) => {
                (&mut *node).increase_start();
                self.right = Some(node);
            },
            Option::None => {},
        }
    }
}

/// The structural outcome of a successful `set` at container level: the
/// element count is untouched and the tree changes exactly as `set_post`
/// describes - only the landing node is replaced, by at most three nodes,
/// with no rebalancing anywhere.
pub closed spec fn set_shape(pre: IntervalVec, post: IntervalVec, index: int, element: i32) -> bool {
    &&& post.count == pre.count
    &&& match (pre.head, post.head) {
        (Option::Some(a), Option::Some(b)) => set_post(*a, *b, index, element),
        _ => false,
    }
}

impl View for IntervalVec {
    type V = Seq<i32>;

    /// The abstract value of the container: the sequence of its elements.
    closed spec fn view(&self) -> Seq<i32> {
        opt_seq(self.head)
    }
}

impl IntervalVec {
    /// Well-formedness of the container: the tree is well formed, covers
    /// exactly the indices `[0, count)`, and is absent exactly when the
    /// container is empty.
    pub closed spec fn wf(self) -> bool {
        match self.head {
            Option::None => self.count == 0,
            Option::Some(n) => n.wf() && n.lo() == 0 && n.hi() == self.count,
        }
    }

    /// Create an empty container.  No allocations are made until a value is
    /// inserted.
    pub fn new() -> (v: Self)
        ensures
            v.wf(),
            v@ == Seq::<i32>::empty(),
    {
        Self { head: None, count: 0 }
    }

    /// The current number of logical elements.
    pub fn len(&self) -> (n: usize)
        requires
            self.wf(),
        ensures
            n == self@.len(),
    {
        proof {
            match &self.head {
                Option::None => {},
                Option::Some(node) => {
                    lemma_wf_props(**node);
                },
            }
        }
        self.count
    }

    /// Get the element at the given index.  Fails with `OutOfRange` exactly
    /// when `index` is not below the current length.
    pub fn get(&self, index: usize) -> (r: Result<i32, IntervalVecErr>)
        requires
            self.wf(),
        ensures
            index < self@.len() ==> r == Ok::<i32, IntervalVecErr>(self@[index as int]),
            index >= self@.len() ==> r == Err::<i32, IntervalVecErr>(
                IntervalVecErr::OutOfRange { count: self@.len() as usize, index },
            ),
    {
        proof {
            match &self.head {
                Option::None => {},
                Option::Some(node) => {
                    lemma_wf_props(**node);
                },
            }
        }
        let result = match &self.head {
            Option::Some(node) => node.get(index),
            Option::None => None,
        };
        match result {
            Option::Some(element) => Ok(element),
            Option::None => Err(IntervalVecErr::OutOfRange { count: self.count, index }),
        }
    }

    /// Replace the element at the given index.  The length never changes;
    /// every other position keeps its prior value.  Fails with `OutOfRange`
    /// exactly when `index` is not below the current length, leaving the
    /// container untouched.
    pub fn set(&mut self, index: usize, element: i32) -> (r: Result<(), IntervalVecErr>)
        requires
            old(self).wf(),
        ensures
            final(self).wf(),
            index < old(self)@.len() ==> r == Ok::<(), IntervalVecErr>(())
                && final(self)@ == old(self)@.update(index as int, element),
            index < old(self)@.len() ==> final(self)@.len() == old(self)@.len()
                && final(self)@[index as int] == element,
            index < old(self)@.len() ==> (forall|j: int|
                0 <= j < old(self)@.len() && j != index ==> final(self)@[j] == old(self)@[j]),
            index < old(self)@.len() ==> set_shape(*old(self), *final(self), index as int, element),
            index < old(self)@.len() && old(self)@[index as int] == element ==> *final(self)
                == *old(self),
            index >= old(self)@.len() ==> r == Err::<(), IntervalVecErr>(
                (IntervalVecErr::OutOfRange { count: old(self)@.len() as usize, index }),
            ) && final(self)@ == old(self)@ && *final(self) == *old(self),
    {
        proof {
            match &self.head {
                Option::None => {},
                Option::Some(node) => {
                    lemma_wf_props(**node);
                },
            }
        }
        match self.head.take() {
            Option::Some(mut node) => {
                let r = (&mut *node).set(index, element);
                self.head = Some(node);
                match r {
                    Result::Ok(()) => Ok(()),
                    Result::Err(()) => Err(
                        IntervalVecErr::OutOfRange { count: self.count, index },
                    ),
                }
            },
            Option::None => Err(IntervalVecErr::OutOfRange { count: self.count, index }),
        }
    }

    /// Insert a new element at the given index, shifting every existing
    /// element at position `index` or later one position to the right.
    /// Index `len()` is the valid append case.  On success the length grows
    /// by exactly one; a failure reports `OutOfRange` and leaves the
    /// container untouched.
    pub fn insert(&mut self, index: usize, element: i32) -> (r: Result<(), IntervalVecErr>)
        requires
            old(self).wf(),
            old(self)@.len() < usize::MAX,
        ensures
            final(self).wf(),
            index <= old(self)@.len() ==> r == Ok::<(), IntervalVecErr>(())
                && final(self)@ == old(self)@.insert(index as int, element),
            index <= old(self)@.len() ==> final(self)@.len() == old(self)@.len() + 1
                && final(self)@[index as int] == element,
            index <= old(self)@.len() ==> (forall|j: int|
                0 <= j < index ==> final(self)@[j] == old(self)@[j]) && (forall|j: int|
                index <= j < old(self)@.len() ==> final(self)@[j + 1] == old(self)@[j]),
            index > old(self)@.len() ==> r == Err::<(), IntervalVecErr>(
                (IntervalVecErr::OutOfRange { count: old(self)@.len() as usize, index }),
            ) && final(self)@ == old(self)@ && *final(self) == *old(self),
    {
        proof {
            match &self.head {
                Option::None => {},
                Option::Some(node) => {
                    lemma_wf_props(**node);
                },
            }
        }
        match self.head.take() {
            Option::Some(mut node) => {
                let r = (&mut *node).insert(index, element);
                self.head = Some(node);
                match r {
                    Result::Ok(()) => {
                        self.count = self.count + 1;
                        proof {
                            old(self)@.insert_ensures(index as int, element);
                            match &self.head {
                                Option::None => {},
                                Option::Some(n2) => {
                                    lemma_wf_props(**n2);
                                },
                            }
                        }
                        Ok(())
                    },
                    Result::Err(()) => Err(
                        IntervalVecErr::OutOfRange { count: self.count, index },
                    ),
                }
            },
            Option::None => {
                if index == 0 {
                    self.head = Some(
                        Box::new(
                            IntervalNode {
                                element,
                                start: 0,
                                count: 1,
                                height: 1,
                                left: None,
                                right: None,
                            },
                        ),
                    );
                    self.count = 1;
                    proof {
                        old(self)@.insert_ensures(index as int, element);
                        match &self.head {
                            Option::None => {},
                            Option::Some(n2) => {
                                assert((**n2).wf());
                                assert((**n2).seq() =~= Seq::new(1, |i: int| element));
                            },
                        }
                        assert(final(self)@ =~= old(self)@.insert(0, element));
                    }
                    Ok(())
                } else {
                    Err(IntervalVecErr::OutOfRange { count: self.count, index })
                }
            },
        }
    }

    /// Append an element at the end of the sequence.  Always valid: the
    /// result is `Ok` on every input, the length grows by one, the new
    /// element is readable at the last index, and every earlier position
    /// keeps its value.
    pub fn push(&mut self, element: i32) -> (r: Result<(), IntervalVecErr>)
        requires
            old(self).wf(),
            old(self)@.len() < usize::MAX,
        ensures
            final(self).wf(),
            r == Ok::<(), IntervalVecErr>(()),
            final(self)@ == old(self)@.push(element),
            final(self)@.len() == old(self)@.len() + 1,
            final(self)@[old(self)@.len() as int] == element,
            forall|j: int| 0 <= j < old(self)@.len() ==> final(self)@[j] == old(self)@[j],
    {
        let n = self.len();
        let r = self.insert(n, element);
        proof {
            assert(old(self)@.insert(old(self)@.len() as int, element) =~= old(self)@.push(
                element,
            ));
        }
        r
    }
}

/// The container state reached by replaying a history of insertion calls
/// against an empty container: each call `(index, element)` behaves exactly
/// as `insert`'s contract promises - it inserts when `index` is at most the
/// current length and leaves the sequence unchanged otherwise.  `push` is
/// `insert` at the current length, so a push is the always-successful case.
pub open spec fn replay_inserts(calls: Seq<(usize, i32)>) -> Seq<i32>
    decreases calls.len(),
{
    if calls.len() == 0 {
        Seq::empty()
    } else {
        let prev = replay_inserts(calls.drop_last());
        let call = calls.last();
        if call.0 <= prev.len() {
            prev.insert(call.0 as int, call.1)
        } else {
            prev
        }
    }
}

/// How many calls of a history of insertion calls succeed when replayed
/// against an empty container.
pub open spec fn successful_inserts(calls: Seq<(usize, i32)>) -> nat
    decreases calls.len(),
{
    if calls.len() == 0 {
        0
    } else {
        successful_inserts(calls.drop_last()) + if calls.last().0 <= replay_inserts(
            calls.drop_last(),
        ).len() {
            1nat
        } else {
            0nat
        }
    }
}

/// Length invariant over call histories: after any sequence of `push` and
/// `insert` calls on a container made by `new`, the length equals the
/// number of successful insertions.  Each step here is exactly what
/// `insert`'s contract states (and `push` is `insert` at the length), so
/// the law carries over to the executable container.
pub proof fn lemma_len_counts_successful_inserts(calls: Seq<(usize, i32)>)
    ensures
        replay_inserts(calls).len() == successful_inserts(calls),
    decreases calls.len(),
{
    if calls.len() > 0 {
        lemma_len_counts_successful_inserts(calls.drop_last());
        let prev = replay_inserts(calls.drop_last());
        let call = calls.last();
        if call.0 <= prev.len() {
            prev.insert_ensures(call.0 as int, call.1);
        }
    }
}

} // verus!
