//! Height bookkeeping and the best-effort local rotation used to keep the
//! interval tree shallow after insertions.

use vstd::prelude::*;

use crate::IntervalNode;
use crate::lemma_wf_props;
use crate::opt_hgt;

verus! {

/// The structural outcome of a rotation at a left-heavy node: the node's
/// run becomes the last run of the left subtree (the promoted right-most
/// node), and a node carrying the old run becomes the new right child,
/// childless on its left, with the old right subtree reattached beneath it.
pub closed spec fn rotated_from_left(pre: IntervalNode, post: IntervalNode) -> bool {
    &&& match pre.left {
        Option::Some(l) => post.element == l.last_run().0 && post.start == l.last_run().1
            && post.count == l.last_run().2,
        Option::None => false,
    }
    &&& match post.right {
        Option::Some(d) => d.element == pre.element && d.start == pre.start && d.count
            == pre.count && d.left is None && d.right == pre.right,
        Option::None => false,
    }
}

/// Mirror image of `rotated_from_left`, for a right-heavy node: the node's
/// run becomes the first run of the right subtree (the promoted left-most
/// node), and a node carrying the old run becomes the new left child,
/// childless on its right, with the old left subtree reattached beneath it.
pub closed spec fn rotated_from_right(pre: IntervalNode, post: IntervalNode) -> bool {
    &&& match pre.right {
        Option::Some(r) => post.element == r.first_run().0 && post.start == r.first_run().1
            && post.count == r.first_run().2,
        Option::None => false,
    }
    &&& match post.left {
        Option::Some(d) => d.element == pre.element && d.start == pre.start && d.count
            == pre.count && d.right is None && d.left == pre.left,
        Option::None => false,
    }
}

/// The cached height of an optional subtree.
pub(crate) fn opt_node_height(o: &Option<Box<IntervalNode>>) -> (h: usize)
    requires
        match o {
            Option::None => true,
            Option::Some(n) => n.wf(),
        },
    ensures
        h == opt_hgt(*o),
{
    match o {
        Option::None => 0,
        Option::Some(n) => n.height,
    }
}

impl IntervalNode {
    /// Height-balanced at this node: neither subtree is more than one
    /// level taller than the other.
    pub closed spec fn balanced(self) -> bool {
        opt_hgt(self.left) <= opt_hgt(self.right) + 1 && opt_hgt(self.right) <= opt_hgt(
            self.left,
        ) + 1
    }

    /// The left subtree is more than one level taller than the right.
    pub closed spec fn left_heavy(self) -> bool {
        opt_hgt(self.left) > opt_hgt(self.right) + 1
    }

    /// The right subtree is more than one level taller than the left.
    pub closed spec fn right_heavy(self) -> bool {
        opt_hgt(self.right) > opt_hgt(self.left) + 1
    }

    /// The (element, start, count) of the last run of this subtree: the
    /// run of the node at the end of the right spine.
    pub closed spec fn last_run(self) -> (i32, int, int)
        decreases self,
    {
        match self.right {
            Option::None => (self.element, self.start as int, self.count as int),
            Option::Some(r) => r.last_run(),
        }
    }

    /// The (element, start, count) of the first run of this subtree: the
    /// run of the node at the end of the left spine.
    pub closed spec fn first_run(self) -> (i32, int, int)
        decreases self,
    {
        match self.left {
            Option::None => (self.element, self.start as int, self.count as int),
            Option::Some(l) => l.first_run(),
        }
    }

    /// The height of the subtree rooted at this node.
    pub(crate) fn node_height(&self) -> (h: usize)
        requires
            self.wf(),
        ensures
            h == self.hgt(),
    {
        self.height
    }

    /// The signed height difference between the left and right subtrees,
    /// saturated just past the rebalancing threshold so that the magnitude
    /// always fits the return type.
    pub(crate) fn node_height_diff(&self) -> (d: isize)
        requires
            self.wf(),
        ensures
            -2 <= d <= 2,
            d > 1 <==> self.left_heavy(),
            d < -1 <==> self.right_heavy(),
            self.balanced() ==> d == opt_hgt(self.left) - opt_hgt(self.right),
    {
        let lh = match &self.left {
            Option::None => 0,
            Option::Some(n) => n.node_height(),
        };
        let rh = match &self.right {
            Option::None => 0,
            Option::Some(n) => n.node_height(),
        };
        if lh > rh {
            if lh - rh > 1 {
                2
            } else {
                1
            }
        } else if rh > lh {
            if rh - lh > 1 {
                -2
            } else {
                -1
            }
        } else {
            0
        }
    }

    /// Detach the right-most node below this one: `None` when there is no
    /// right child.  The detached node's left subtree is re-parented into
    /// the gap it leaves, so the detached node comes back childless, owning
    /// the final run of the subtree's index range.
    pub(crate) fn right_most(&mut self) -> (r: Option<Box<IntervalNode>>)
        requires
            old(self).wf(),
        ensures
            match r {
                Option::None => *final(self) == *old(self) && old(self).right is None,
                Option::Some(ex) => {
                    &&& old(self).right is Some
                    &&& final(self).wf()
                    &&& ex.wf()
                    &&& ex.left is None
                    &&& ex.right is None
                    &&& ex.start == old(self).hi() - ex.count
                    &&& ex.element == old(self).last_run().0
                    &&& ex.start == old(self).last_run().1
                    &&& ex.count == old(self).last_run().2
                    &&& final(self).seq() + ex.seq() == old(self).seq()
                    &&& final(self).lo() == old(self).lo()
                    &&& final(self).hi() == old(self).hi() - ex.count
                    &&& final(self).start == old(self).start
                    &&& final(self).count == old(self).count
                    &&& final(self).element == old(self).element
                },
            },
        decreases *old(self),
    {
        proof {
            lemma_wf_props(*old(self));
        }
        match self.right.take() {
            Option::None => None,
            Option::Some(mut node) => {
                let ghost n0 = *node;
                proof {
                    lemma_wf_props(*node);
                    assert(old(self).last_run() == n0.last_run());
                }
                let ex_opt = (&mut *node).right_most();
                match ex_opt {
                    Option::Some(x) => {
                        self.right = Some(node);
                        proof {
                            match &self.right {
                                Option::None => {},
                                Option::Some(rc) => {
                                    lemma_wf_props(**rc);
                                },
                            }
                        }
                        let lh = opt_node_height(&self.left);
                        let rh = opt_node_height(&self.right);
                        self.height = 1 + (if lh >= rh {
                            lh
                        } else {
                            rh
                        });
                        proof {
                            assert(final(self).seq() + x.seq() =~= old(self).seq());
                        }
                        Some(x)
                    },
                    Option::None => {
                        self.right = (&mut *node).left.take();
                        (&mut *node).height = 1;
                        proof {
                            assert(n0.last_run() == (n0.element, n0.start as int, n0.count as int));
                            match &self.right {
                                Option::None => {},
                                Option::Some(rc) => {
                                    lemma_wf_props(**rc);
                                },
                            }
                            assert((*node).wf());
                        }
                        let lh = opt_node_height(&self.left);
                        let rh = opt_node_height(&self.right);
                        self.height = 1 + (if lh >= rh {
                            lh
                        } else {
                            rh
                        });
                        proof {
                            assert(final(self).seq() + node.seq() =~= old(self).seq());
                        }
                        Some(node)
                    },
                }
            },
        }
    }

    /// Detach the left-most node below this one: `None` when there is no
    /// left child.  Mirror image of `right_most`: the detached node's right
    /// subtree is re-parented into the gap, and the detached node comes back
    /// childless, owning the first run of the subtree's index range.
    pub(crate) fn left_most(&mut self) -> (r: Option<Box<IntervalNode>>)
        requires
            old(self).wf(),
        ensures
            match r {
                Option::None => *final(self) == *old(self) && old(self).left is None,
                Option::Some(ex) => {
                    &&& old(self).left is Some
                    &&& final(self).wf()
                    &&& ex.wf()
                    &&& ex.left is None
                    &&& ex.right is None
                    &&& ex.start == old(self).lo()
                    &&& ex.element == old(self).first_run().0
                    &&& ex.start == old(self).first_run().1
                    &&& ex.count == old(self).first_run().2
                    &&& ex.seq() + final(self).seq() == old(self).seq()
                    &&& final(self).lo() == old(self).lo() + ex.count
                    &&& final(self).hi() == old(self).hi()
                    &&& final(self).start == old(self).start
                    &&& final(self).count == old(self).count
                    &&& final(self).element == old(self).element
                },
            },
        decreases *old(self),
    {
        proof {
            lemma_wf_props(*old(self));
        }
        match self.left.take() {
            Option::None => None,
            Option::Some(mut node) => {
                let ghost n0 = *node;
                proof {
                    lemma_wf_props(*node);
                    assert(old(self).first_run() == n0.first_run());
                }
                let ex_opt = (&mut *node).left_most();
                match ex_opt {
                    Option::Some(x) => {
                        self.left = Some(node);
                        proof {
                            match &self.left {
                                Option::None => {},
                                Option::Some(lc) => {
                                    lemma_wf_props(**lc);
                                },
                            }
                        }
                        let lh = opt_node_height(&self.left);
                        let rh = opt_node_height(&self.right);
                        self.height = 1 + (if lh >= rh {
                            lh
                        } else {
                            rh
                        });
                        proof {
                            assert(x.seq() + final(self).seq() =~= old(self).seq());
                        }
                        Some(x)
                    },
                    Option::None => {
                        self.left = (&mut *node).right.take();
                        (&mut *node).height = 1;
                        proof {
                            assert(n0.first_run() == (n0.element, n0.start as int, n0.count as int));
                            match &self.left {
                                Option::None => {},
                                Option::Some(lc) => {
                                    lemma_wf_props(**lc);
                                },
                            }
                            assert((*node).wf());
                        }
                        let lh = opt_node_height(&self.left);
                        let rh = opt_node_height(&self.right);
                        self.height = 1 + (if lh >= rh {
                            lh
                        } else {
                            rh
                        });
                        proof {
                            assert(node.seq() + final(self).seq() =~= old(self).seq());
                        }
                        Some(node)
                    },
                }
            },
        }
    }

    /// Best-effort local rebalancing, applied after an insertion: when the
    /// left subtree is more than one level taller, the right-most node of
    /// the left subtree is promoted into this position and this node's run
    /// is demoted to a new right child; symmetrically for a taller right
    /// subtree.  A single step, not a cascading rebalance: the represented
    /// sequence and index range never change.
    #[verifier::rlimit(100)]
    pub fn rotate(&mut self)
        requires
            old(self).wf(),
        ensures
            final(self).wf(),
            final(self).seq() == old(self).seq(),
            final(self).lo() == old(self).lo(),
            final(self).hi() == old(self).hi(),
            old(self).balanced() ==> *final(self) == *old(self),
            old(self).left_heavy() ==> rotated_from_left(*old(self), *final(self)),
            old(self).right_heavy() ==> rotated_from_right(*old(self), *final(self)),
    {
        proof {
            lemma_wf_props(*old(self));
        }
        let diff = self.node_height_diff();
        if diff > 1 {
            let mut l = self.left.take().unwrap();
            proof {
                lemma_wf_props(*l);
            }
            let ex_opt = (&mut *l).right_most();
            let mut ex = match ex_opt {
                Option::Some(x) => {
                    self.left = Some(l);
                    x
                },
                Option::None => {
                    self.left = (&mut *l).left.take();
                    (&mut *l).height = 1;
                    l
                },
            };
            let t_el = self.element;
            self.element = ex.element;
            (&mut *ex).element = t_el;
            let t_st = self.start;
            self.start = ex.start;
            (&mut *ex).start = t_st;
            let t_ct = self.count;
            self.count = ex.count;
            (&mut *ex).count = t_ct;
            (&mut *ex).right = self.right.take();
            proof {
                match &ex.right {
                    Option::None => {},
                    Option::Some(rc) => {
                        lemma_wf_props(**rc);
                    },
                }
            }
            (&mut *ex).height = 1 + opt_node_height(&ex.right);
            proof {
                assert((*ex).wf());
                lemma_wf_props(*ex);
                match &self.left {
                    Option::None => {},
                    Option::Some(lc) => {
                        lemma_wf_props(**lc);
                    },
                }
            }
            self.right = Some(ex);
            let lh = opt_node_height(&self.left);
            let rh = opt_node_height(&self.right);
            self.height = 1 + (if lh >= rh {
                lh
            } else {
                rh
            });
            proof {
                assert(final(self).seq() =~= old(self).seq());
            }
        } else if diff < -1 {
            let mut r = self.right.take().unwrap();
            proof {
                lemma_wf_props(*r);
            }
            let ex_opt = (&mut *r).left_most();
            let mut ex = match ex_opt {
                Option::Some(x) => {
                    self.right = Some(r);
                    x
                },
                Option::None => {
                    self.right = (&mut *r).right.take();
                    (&mut *r).height = 1;
                    r
                },
            };
            let t_el = self.element;
            self.element = ex.element;
            (&mut *ex).element = t_el;
            let t_st = self.start;
            self.start = ex.start;
            (&mut *ex).start = t_st;
            let t_ct = self.count;
            self.count = ex.count;
            (&mut *ex).count = t_ct;
            (&mut *ex).left = self.left.take();
            proof {
                match &ex.left {
                    Option::None => {},
                    Option::Some(lc) => {
                        lemma_wf_props(**lc);
                    },
                }
            }
            (&mut *ex).height = 1 + opt_node_height(&ex.left);
            proof {
                assert((*ex).wf());
                lemma_wf_props(*ex);
                match &self.right {
                    Option::None => {},
                    Option::Some(rc) => {
                        lemma_wf_props(**rc);
                    },
                }
            }
            self.left = Some(ex);
            let lh = opt_node_height(&self.left);
            let rh = opt_node_height(&self.right);
            self.height = 1 + (if lh >= rh {
                lh
            } else {
                rh
            });
            proof {
                assert(final(self).seq() =~= old(self).seq());
            }
        }
    }
}

} // verus!
