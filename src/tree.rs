//! The binary tree of script-path leaves and its depth-first walk.
use std::sync::Arc;
use vstd::prelude::*;

verus! {

/// The largest tree height a Taproot control block can prove.
pub const MAX_NODE_COUNT: usize = 128;

/// A Taproot tree: leaves hold spending conditions, branches hold exactly two
/// children and their cached height.
#[derive(Debug, Clone, PartialEq, Eq, PartialOrd, Ord, Hash)]
#[verifier::reject_recursive_types(L)]
pub enum TapTree<L> {
    /// A branch with its two subtrees.
    Tree {
        /// Left subtree.
        left: Arc<TapTree<L>>,
        /// Right subtree.
        right: Arc<TapTree<L>>,
        /// `1 + max(left height, right height)`.
        height: usize,
    },
    /// A single spending condition.
    Leaf(Arc<L>),
}

/// The height a tree is made of, computed from its shape.
pub open spec fn tree_height<L>(t: TapTree<L>) -> nat
    decreases t,
{
    match t {
        TapTree::Tree { left, right, .. } => {
            let l = tree_height(*left);
            let r = tree_height(*right);
            1 + if l >= r { l } else { r }
        },
        TapTree::Leaf(_) => 0,
    }
}

/// Every branch caches its true height.
pub open spec fn tree_wf<L>(t: TapTree<L>) -> bool
    decreases t,
{
    match t {
        TapTree::Tree { left, right, height } => {
            tree_wf(*left) && tree_wf(*right) && height as nat == tree_height(t)
        },
        TapTree::Leaf(_) => true,
    }
}

/// The number of nodes of a tree.
pub open spec fn tree_size<L>(t: TapTree<L>) -> nat
    decreases t,
{
    match t {
        TapTree::Tree { left, right, .. } => 1 + tree_size(*left) + tree_size(*right),
        TapTree::Leaf(_) => 1,
    }
}

/// The leaves of `t` in depth-first order, left before right, each with its
/// depth counted from `d` at the root of `t`.
pub open spec fn leaves_at<L>(t: TapTree<L>, d: nat) -> Seq<(nat, L)>
    decreases t,
{
    match t {
        TapTree::Tree { left, right, .. } => leaves_at(*left, d + 1) + leaves_at(*right, d + 1),
        TapTree::Leaf(l) => seq![(d, *l)],
    }
}

/// The leaves of a tree with their depths (the number of branches above them).
pub open spec fn tree_leaves<L>(t: TapTree<L>) -> Seq<(nat, L)> {
    leaves_at(t, 0)
}

/// The leaves still to come from a walk stack whose top is its last entry.
pub open spec fn stack_leaves<L>(s: Seq<(u8, &TapTree<L>)>) -> Seq<(nat, L)>
    decreases s.len(),
{
    if s.len() == 0 {
        Seq::empty()
    } else {
        leaves_at(*s.last().1, s.last().0 as nat) + stack_leaves(s.drop_last())
    }
}

/// The total node count of the trees on a walk stack.
pub open spec fn stack_size<L>(s: Seq<(u8, &TapTree<L>)>) -> nat
    decreases s.len(),
{
    if s.len() == 0 {
        0
    } else {
        tree_size(*s.last().1) + stack_size(s.drop_last())
    }
}

/// Each entry of a walk stack is well formed and its leaves' depths fit in a byte.
pub open spec fn stack_wf<L>(s: Seq<(u8, &TapTree<L>)>) -> bool {
    forall|i: int|
        0 <= i < s.len() ==> tree_wf(*#[trigger] s[i].1) && s[i].0 as nat + tree_height(*s[i].1)
            <= u8::MAX as nat
}

/// A tree has at least one node.
pub proof fn lemma_size_positive<L>(t: &TapTree<L>)
    ensures
        tree_size(*t) >= 1,
{
}

/// A tree has a leaf, and no leaf lies deeper than the tree's height.
pub proof fn lemma_leaves_depth_bound<L>(t: &TapTree<L>, d: nat)
    ensures
        forall|i: int|
            0 <= i < leaves_at(*t, d).len() ==> #[trigger] leaves_at(*t, d)[i].0 <= d
                + tree_height(*t),
        leaves_at(*t, d).len() >= 1,
    decreases *t,
{
    if let TapTree::Tree { left, right, .. } = t {
        lemma_leaves_depth_bound(&**left, d + 1);
        lemma_leaves_depth_bound(&**right, d + 1);
        assert forall|i: int| 0 <= i < leaves_at(*t, d).len() implies #[trigger] leaves_at(
            *t,
            d,
        )[i].0 <= d + tree_height(*t) by {
            if i < leaves_at(**left, d + 1).len() {
                assert(leaves_at(*t, d)[i] == leaves_at(**left, d + 1)[i]);
            } else {
                assert(leaves_at(*t, d)[i] == leaves_at(**right, d + 1)[i - leaves_at(
                    **left,
                    d + 1,
                ).len()]);
            }
        }
    }
}

/// The leaves of a tree from left to right, without their depths.
pub open spec fn leaf_list<L>(t: TapTree<L>) -> Seq<L>
    decreases t,
{
    match t {
        TapTree::Tree { left, right, .. } => leaf_list(*left) + leaf_list(*right),
        TapTree::Leaf(l) => seq![*l],
    }
}

/// `u` has the shape and cached heights of `t`, whatever its leaves hold.
pub open spec fn same_shape<L, M>(t: TapTree<L>, u: TapTree<M>) -> bool
    decreases t,
{
    match (t, u) {
        (TapTree::Tree { left, right, height }, TapTree::Tree { left: l2, right: r2, height: h2 }) => {
            height == h2 && same_shape(*left, *l2) && same_shape(*right, *r2)
        },
        (TapTree::Leaf(_), TapTree::Leaf(_)) => true,
        _ => false,
    }
}

/// The leaves with depths hold the leaves of `leaf_list`, in the same order.
pub proof fn lemma_leaves_at_list<L>(t: &TapTree<L>, d: nat)
    ensures
        leaves_at(*t, d).len() == leaf_list(*t).len(),
        forall|i: int|
            0 <= i < leaf_list(*t).len() ==> #[trigger] leaves_at(*t, d)[i].1 == leaf_list(*t)[i],
    decreases *t,
{
    if let TapTree::Tree { left, right, .. } = t {
        lemma_leaves_at_list(&**left, d + 1);
        lemma_leaves_at_list(&**right, d + 1);
        assert forall|i: int| 0 <= i < leaf_list(*t).len() implies #[trigger] leaves_at(*t, d)[i].1
            == leaf_list(*t)[i] by {
            if i < leaf_list(**left).len() {
                assert(leaves_at(*t, d)[i] == leaves_at(**left, d + 1)[i]);
                assert(leaf_list(*t)[i] == leaf_list(**left)[i]);
            } else {
                let k = i - leaf_list(**left).len();
                assert(leaves_at(*t, d)[i] == leaves_at(**right, d + 1)[k]);
                assert(leaf_list(*t)[i] == leaf_list(**right)[k]);
            }
        }
    }
}

/// Trees of the same shape have their leaves at the same depths.
pub proof fn lemma_same_shape_depths<L, M>(t: &TapTree<L>, u: &TapTree<M>, d: nat)
    requires
        same_shape(*t, *u),
    ensures
        leaves_at(*u, d).len() == leaves_at(*t, d).len(),
        forall|i: int|
            0 <= i < leaves_at(*t, d).len() ==> #[trigger] leaves_at(*u, d)[i].0 == leaves_at(
                *t,
                d,
            )[i].0,
    decreases *t,
{
    if let TapTree::Tree { left, right, .. } = t {
        if let TapTree::Tree { left: l2, right: r2, .. } = u {
            lemma_same_shape_depths(&**left, &**l2, d + 1);
            lemma_same_shape_depths(&**right, &**r2, d + 1);
            assert forall|i: int| 0 <= i < leaves_at(*t, d).len() implies #[trigger] leaves_at(
                *u,
                d,
            )[i].0 == leaves_at(*t, d)[i].0 by {
                if i < leaves_at(**left, d + 1).len() {
                    assert(leaves_at(*t, d)[i] == leaves_at(**left, d + 1)[i]);
                    assert(leaves_at(*u, d)[i] == leaves_at(**l2, d + 1)[i]);
                } else {
                    let k = i - leaves_at(**left, d + 1).len();
                    assert(leaves_at(*t, d)[i] == leaves_at(**right, d + 1)[k]);
                    assert(leaves_at(*u, d)[i] == leaves_at(**r2, d + 1)[k]);
                }
            }
        }
    }
}

/// A tree of the same shape as a well-formed one is well formed, as high,
/// and has as many leaves.
pub proof fn lemma_same_shape_wf<L, M>(t: &TapTree<L>, u: &TapTree<M>)
    requires
        same_shape(*t, *u),
        t.wf(),
    ensures
        u.wf(),
        tree_height(*u) == tree_height(*t),
        leaf_list(*u).len() == leaf_list(*t).len(),
    decreases *t,
{
    if let TapTree::Tree { left, right, .. } = t {
        if let TapTree::Tree { left: l2, right: r2, .. } = u {
            lemma_same_shape_wf(&**left, &**l2);
            lemma_same_shape_wf(&**right, &**r2);
        }
    }
}

impl<L> TapTree<L> {
    /// This tree's shape with leaves popped from the end of `stack`, the
    /// first leaf from the top.
    fn rebuild<M>(&self, stack: &mut Vec<M>) -> (r: TapTree<M>)
        requires
            self.wf(),
            old(stack)@.len() >= leaf_list(*self).len(),
        ensures
            same_shape(*self, r),
            old(stack)@ == final(stack)@ + leaf_list(r).reverse(),
        decreases *self,
    {
        match self {
            TapTree::Tree { left, right, height } => {
                let ghost s0 = stack@;
                let l = left.rebuild(stack);
                proof {
                    lemma_same_shape_wf(&**left, &l);
                }
                let ghost s1 = stack@;
                let r = right.rebuild(stack);
                proof {
                    lemma_same_shape_wf(&**right, &r);
                }
                let t = TapTree::Tree { left: Arc::new(l), right: Arc::new(r), height: *height };
                proof {
                    assert(leaf_list(t) == leaf_list(l) + leaf_list(r));
                    assert((leaf_list(l) + leaf_list(r)).reverse() =~= leaf_list(r).reverse()
                        + leaf_list(l).reverse());
                    assert(s0 =~= stack@ + leaf_list(t).reverse());
                }
                t
            },
            TapTree::Leaf(_) => {
                let ghost s0 = stack@;
                let v = stack.pop().unwrap();
                let t = TapTree::Leaf(Arc::new(v));
                proof {
                    assert(leaf_list(t).reverse() =~= seq![v]);
                    assert(s0 =~= stack@ + leaf_list(t).reverse());
                }
                t
            },
        }
    }

    /// This tree's shape with `leaves`, in depth-first order, in place of its
    /// own leaves.
    pub fn translate<M>(&self, leaves: Vec<M>) -> (r: TapTree<M>)
        requires
            self.wf(),
            leaves@.len() == leaf_list(*self).len(),
        ensures
            same_shape(*self, r),
            r.wf(),
            tree_height(r) == tree_height(*self),
            leaf_list(r) == leaves@,
    {
        let ghost orig = leaves@;
        let mut leaves = leaves;
        let mut stack: Vec<M> = Vec::new();
        while leaves.len() > 0
            invariant
                leaves@ + stack@.reverse() == orig,
            decreases leaves@.len(),
        {
            let ghost s = stack@;
            let ghost l = leaves@;
            let v = leaves.pop().unwrap();
            stack.push(v);
            proof {
                assert(stack@.reverse() =~= seq![v] + s.reverse());
                assert(l =~= leaves@ + seq![v]);
                assert(leaves@ + stack@.reverse() =~= l + s.reverse());
            }
        }
        proof {
            assert(leaves@ + stack@.reverse() =~= stack@.reverse());
        }
        let ghost before = stack@;
        let r = self.rebuild(&mut stack);
        proof {
            lemma_same_shape_wf(self, &r);
            assert(stack@.len() == 0);
            assert(stack@ + leaf_list(r).reverse() =~= leaf_list(r).reverse());
            assert(orig =~= before.reverse());
            assert(before.reverse() =~= leaf_list(r));
        }
        r
    }

    /// This tree's shape with the mapped leaves `results`, in depth-first
    /// order; fails with the position of the first leaf that could not be
    /// mapped, keeping nothing of the others.
    pub fn translate_results<M>(&self, results: Vec<Option<M>>) -> (r: Result<TapTree<M>, usize>)
        requires
            self.wf(),
            results@.len() == leaf_list(*self).len(),
        ensures
            r matches Err(i) ==> 0 <= i < results@.len() && results@[i as int] is None && forall|
                j: int,
            | 0 <= j < i ==> (#[trigger] results@[j]) is Some,
            r is Ok ==> forall|j: int| 0 <= j < results@.len() ==> (#[trigger] results@[j]) is Some,
            r matches Ok(u) ==> same_shape(*self, u) && u.wf() && tree_height(u) == tree_height(*self)
                && leaf_list(u).len() == results@.len() && forall|j: int|
                0 <= j < results@.len() ==> results@[j] == Some(#[trigger] leaf_list(u)[j]),
    {
        let mut i: usize = 0;
        while i < results.len()
            invariant
                i <= results@.len(),
                forall|j: int| 0 <= j < i ==> (#[trigger] results@[j]) is Some,
            decreases results@.len() - i,
        {
            if results[i].is_none() {
                return Err(i);
            }
            i = i + 1;
        }
        let ghost orig = results@;
        let mut results = results;
        let mut rev: Vec<M> = Vec::new();
        while results.len() > 0
            invariant
                results@.len() + rev@.len() == orig.len(),
                forall|j: int| 0 <= j < results@.len() ==> results@[j] == orig[j],
                forall|j: int| 0 <= j < rev@.len() ==> orig[orig.len() - 1 - j] == Some(#[trigger] rev@[j]),
                forall|j: int| 0 <= j < orig.len() ==> (#[trigger] orig[j]) is Some,
            decreases results@.len(),
        {
            let o = results.pop().unwrap();
            proof {
                assert(o == orig[results@.len() as int]);
            }
            rev.push(o.unwrap());
        }
        let mut vals: Vec<M> = Vec::new();
        while rev.len() > 0
            invariant
                vals@.len() + rev@.len() == orig.len(),
                forall|j: int| 0 <= j < vals@.len() ==> orig[j] == Some(#[trigger] vals@[j]),
                forall|j: int| 0 <= j < rev@.len() ==> orig[orig.len() - 1 - j] == Some(#[trigger] rev@[j]),
            decreases rev@.len(),
        {
            let ghost k = rev@.len() - 1;
            let v = rev.pop().unwrap();
            proof {
                assert(orig[orig.len() - 1 - k] == Some(v));
            }
            vals.push(v);
        }
        let u = self.translate(vals);
        Ok(u)
    }

    /// This tree with every cached height correct.
    pub open spec fn wf(&self) -> bool {
        tree_wf(*self)
    }

    /// A leaf holding `leaf`.
    pub fn leaf(leaf: L) -> (r: Self)
        ensures
            r == TapTree::Leaf(Arc::new(leaf)),
            r.wf(),
            tree_height(r) == 0,
            tree_leaves(r) == seq![(0nat, leaf)],
    {
        TapTree::Leaf(Arc::new(leaf))
    }

    /// A branch with `left` and `right` as its children.
    pub fn combine(left: TapTree<L>, right: TapTree<L>) -> (r: Self)
        requires
            left.wf(),
            right.wf(),
            tree_height(left) < usize::MAX,
            tree_height(right) < usize::MAX,
        ensures
            r.wf(),
            tree_height(r) == 1 + if tree_height(left) >= tree_height(right) {
                tree_height(left)
            } else {
                tree_height(right)
            },
            (r matches TapTree::Tree { left: a, right: b, height: h } && *a == left && *b == right
                && h as nat == 1 + if tree_height(left) >= tree_height(right) {
                tree_height(left)
            } else {
                tree_height(right)
            }),
            tree_leaves(r) == leaves_at(left, 1) + leaves_at(right, 1),
    {
        let lh = left.height();
        let rh = right.height();
        let height = 1 + if lh >= rh {
            lh
        } else {
            rh
        };
        TapTree::Tree { left: Arc::new(left), right: Arc::new(right), height }
    }

    /// The height of the tree, read from its cache.
    pub fn height(&self) -> (r: usize)
        requires
            self.wf(),
        ensures
            r as nat == tree_height(*self),
    {
        match self {
            TapTree::Tree { height, .. } => *height,
            TapTree::Leaf(_) => 0,
        }
    }

    /// A depth-first walk over the leaves, left before right.
    pub fn iter(&self) -> (r: TapTreeIter<'_, L>)
        requires
            self.wf(),
            tree_height(*self) <= u8::MAX as nat,
        ensures
            r.wf(),
            r.remaining() == tree_leaves(*self),
    {
        let mut stack: Vec<(u8, &TapTree<L>)> = Vec::new();
        stack.push((0u8, self));
        proof {
            assert(stack@.drop_last() =~= Seq::<(u8, &TapTree<L>)>::empty());
            assert(stack_leaves(stack@.drop_last()) =~= Seq::<(nat, L)>::empty());
            assert(stack_leaves(stack@) =~= tree_leaves(*self));
        }
        TapTreeIter { stack }
    }
}

/// A depth-first walk over a tree's leaves, with an explicit stack so that
/// its memory is bounded by the tree's height and not by the call stack.
#[verifier::reject_recursive_types(L)]
pub struct TapTreeIter<'a, L> {
    stack: Vec<(u8, &'a TapTree<L>)>,
}

impl<'a, L> TapTreeIter<'a, L> {
    /// The walk's stack is made of well-formed trees of bounded depth.
    pub closed spec fn wf(&self) -> bool {
        stack_wf(self.stack@)
    }

    /// The leaves the walk has still to yield, in order.
    pub closed spec fn remaining(&self) -> Seq<(nat, L)> {
        stack_leaves(self.stack@)
    }

    /// A walk that yields nothing.
    pub fn empty() -> (r: Self)
        ensures
            r.wf(),
            r.remaining() == Seq::<(nat, L)>::empty(),
    {
        TapTreeIter { stack: Vec::new() }
    }

    /// The next leaf with its depth, or `None` once every leaf was yielded.
    pub fn next(&mut self) -> (r: Option<(u8, &'a L)>)
        requires
            old(self).wf(),
        ensures
            final(self).wf(),
            old(self).remaining().len() == 0 ==> r is None && final(self).remaining().len() == 0,
            old(self).remaining().len() > 0 ==> (r matches Some(p) && p.0 as nat == old(
                self,
            ).remaining()[0].0 && *p.1 == old(self).remaining()[0].1 && final(self).remaining()
                == old(self).remaining().drop_first()),
    {
        let ghost start = self.remaining();
        loop
            invariant
                self.wf(),
                self.remaining() == start,
                start == old(self).remaining(),
            decreases stack_size(self.stack@),
        {
            let ghost s = self.stack@;
            match self.stack.pop() {
                None => {
                    proof {
                        assert(s.len() == 0);
                        assert(stack_leaves(s) =~= Seq::<(nat, L)>::empty());
                        assert(start.len() == 0);
                    }
                    return None;
                },
                Some((depth, last)) => {
                    proof {
                        assert(s.last() == (depth, last));
                        assert(self.stack@ == s.drop_last());
                        assert(tree_wf(*s[s.len() - 1].1));
                    }
                    match last {
                        TapTree::Tree { left, right, .. } => {
                            proof {
                                lemma_size_positive(&**left);
                                lemma_size_positive(&**right);
                            }
                            let l: &'a TapTree<L> = &**left;
                            let r: &'a TapTree<L> = &**right;
                            let d: u8 = depth + 1;
                            self.stack.push((d, r));
                            self.stack.push((d, l));
                            proof {
                                let s2 = self.stack@;
                                assert(s2.drop_last().drop_last() == s.drop_last());
                                assert(s2.drop_last().last() == (d, r));
                                assert(s2.last() == (d, l));
                                assert(stack_leaves(s2) == leaves_at(**left, d as nat)
                                    + stack_leaves(s2.drop_last()));
                                assert(stack_leaves(s2.drop_last()) == leaves_at(**right, d as nat)
                                    + stack_leaves(s.drop_last()));
                                assert(leaves_at(*last, depth as nat) == leaves_at(**left, d as nat)
                                    + leaves_at(**right, d as nat));
                                assert(stack_leaves(s2) =~= stack_leaves(s));
                                assert(stack_size(s2) == tree_size(**left) + stack_size(
                                    s2.drop_last(),
                                ));
                                assert(stack_size(s2.drop_last()) == tree_size(**right)
                                    + stack_size(s.drop_last()));
                                assert(stack_size(s2) < stack_size(s));
                                assert forall|i: int| 0 <= i < s2.len() implies tree_wf(
                                    *#[trigger] s2[i].1,
                                ) && s2[i].0 as nat + tree_height(*s2[i].1)
                                    <= u8::MAX as nat by {
                                    if i < s.len() - 1 {
                                        assert(s2[i] == s[i]);
                                    }
                                }
                            }
                        },
                        TapTree::Leaf(ms) => {
                            let leaf: &'a L = &**ms;
                            proof {
                                lemma_leaves_depth_bound(last, depth as nat);
                                assert(leaves_at(*last, depth as nat) == seq![(depth as nat, *leaf)]);
                                assert(stack_leaves(s) == seq![(depth as nat, *leaf)]
                                    + stack_leaves(self.stack@));
                                assert(self.remaining() =~= start.drop_first());
                                assert(start.len() > 0);
                                assert(start[0] == (depth as nat, *leaf));
                                assert forall|i: int| 0 <= i < self.stack@.len() implies tree_wf(
                                    *#[trigger] self.stack@[i].1,
                                ) && self.stack@[i].0 as nat + tree_height(*self.stack@[i].1)
                                    <= u8::MAX as nat by {
                                    assert(self.stack@[i] == s[i]);
                                }
                            }
                            return Some((depth, leaf));
                        },
                    }
                },
            }
        }
    }
}

} // verus!
