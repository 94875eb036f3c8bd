//! The spending policy a descriptor stands for: the internal key, or any of
//! the leaves, as a tree of alternatives that mirrors the tree of leaves.
use crate::descriptor::Tr;
use crate::tree::{leaf_list, TapTree};
use vstd::prelude::*;

verus! {

/// A policy over leaf policies of type `P`.
#[derive(Debug)]
#[verifier::reject_recursive_types(P)]
pub enum Policy<P> {
    /// A signature with this key.
    Key(String),
    /// The policy of one leaf.
    Leaf(P),
    /// Either of two policies.
    Or(Box<Policy<P>>, Box<Policy<P>>),
}

/// `p` has the shape of `t`: a leaf policy for each leaf, an alternative for
/// each branch.
pub open spec fn mirrors<L, P>(p: Policy<P>, t: TapTree<L>) -> bool
    decreases t,
{
    match (p, t) {
        (Policy::Or(a, b), TapTree::Tree { left, right, .. }) => mirrors(*a, *left) && mirrors(
            *b,
            *right,
        ),
        (Policy::Leaf(_), TapTree::Leaf(_)) => true,
        _ => false,
    }
}

/// The leaf policies of `p` from left to right.
pub open spec fn policy_leaves<P>(p: Policy<P>) -> Seq<P>
    decreases p,
{
    match p {
        Policy::Or(a, b) => policy_leaves(*a) + policy_leaves(*b),
        Policy::Leaf(x) => seq![x],
        Policy::Key(_) => Seq::empty(),
    }
}

impl<L> TapTree<L> {
    /// The policy of this tree with leaf policies popped from the end of
    /// `stack`, the first leaf's from the top.
    fn lift_from<P>(&self, stack: &mut Vec<P>) -> (r: Policy<P>)
        requires
            old(stack)@.len() >= leaf_list(*self).len(),
        ensures
            mirrors(r, *self),
            old(stack)@ == final(stack)@ + policy_leaves(r).reverse(),
            policy_leaves(r).len() == leaf_list(*self).len(),
        decreases *self,
    {
        match self {
            TapTree::Tree { left, right, .. } => {
                let ghost s0 = stack@;
                let a = left.lift_from(stack);
                let b = right.lift_from(stack);
                let r = Policy::Or(Box::new(a), Box::new(b));
                proof {
                    assert(policy_leaves(r) == policy_leaves(a) + policy_leaves(b));
                    assert((policy_leaves(a) + policy_leaves(b)).reverse() =~= policy_leaves(
                        b,
                    ).reverse() + policy_leaves(a).reverse());
                    assert(s0 =~= stack@ + policy_leaves(r).reverse());
                }
                r
            },
            TapTree::Leaf(_) => {
                let ghost s0 = stack@;
                let v = stack.pop().unwrap();
                let r = Policy::Leaf(v);
                proof {
                    assert(policy_leaves(r).reverse() =~= seq![v]);
                    assert(s0 =~= stack@ + policy_leaves(r).reverse());
                }
                r
            },
        }
    }

    /// The policy of this tree: an alternative for each branch, and the given
    /// policy of each leaf, in depth-first order.
    pub fn lift<P>(&self, leaf_policies: Vec<P>) -> (r: Policy<P>)
        requires
            leaf_policies@.len() == leaf_list(*self).len(),
        ensures
            mirrors(r, *self),
            policy_leaves(r) == leaf_policies@,
    {
        let ghost orig = leaf_policies@;
        let mut rest = leaf_policies;
        let mut stack: Vec<P> = Vec::new();
        while rest.len() > 0
            invariant
                rest@ + stack@.reverse() == orig,
            decreases rest@.len(),
        {
            let ghost s = stack@;
            let ghost l = rest@;
            let v = rest.pop().unwrap();
            stack.push(v);
            proof {
                assert(stack@.reverse() =~= seq![v] + s.reverse());
                assert(l =~= rest@ + seq![v]);
                assert(rest@ + stack@.reverse() =~= l + s.reverse());
            }
        }
        proof {
            assert(rest@ + stack@.reverse() =~= stack@.reverse());
        }
        let ghost before = stack@;
        let r = self.lift_from(&mut stack);
        proof {
            assert(stack@.len() == 0);
            assert(stack@ + policy_leaves(r).reverse() =~= policy_leaves(r).reverse());
            assert(orig =~= before.reverse());
            assert(before.reverse() =~= policy_leaves(r));
        }
        r
    }
}

impl<L> Tr<L> {
    /// The policy of this descriptor: its internal key, or else any of its
    /// leaves as the tree arranges them; leaf policies are given in
    /// depth-first order.
    pub fn lift<P>(&self, leaf_policies: Vec<P>) -> (r: Policy<P>)
        requires
            self.wf(),
            leaf_policies@.len() == self.leaves().len(),
        ensures
            self.tree() is None ==> (r matches Policy::Key(k) && k@ == self.key()),
            self.tree() matches Some(t) ==> (r matches Policy::Or(a, b) && (*a matches Policy::Key(
                k,
            ) && k@ == self.key()) && mirrors(*b, t) && policy_leaves(*b) == leaf_policies@),
    {
        let key = self.internal_key().clone();
        match self.tap_tree() {
            None => Policy::Key(key),
            Some(t) => {
                proof {
                    crate::tree::lemma_leaves_at_list(t, 0);
                }
                Policy::Or(Box::new(Policy::Key(key)), Box::new(t.lift(leaf_policies)))
            },
        }
    }
}

} // verus!
