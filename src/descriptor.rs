//! The Taproot descriptor: an internal key and an optional tree of leaves.
use crate::error::{Error, ParseError};
use crate::parse::key_ok;
use crate::leaf::TapLeaf;
use crate::tree::{
    lemma_leaves_at_list, leaf_list, same_shape, tree_height, tree_leaves, TapTree, TapTreeIter,
    MAX_NODE_COUNT,
};
use vstd::prelude::*;

verus! {

/// A Taproot descriptor over leaves of type `L`. Descriptors compare by
/// internal key, then by tree.
#[derive(Debug, Clone, PartialEq, Eq, PartialOrd, Ord, Hash)]
#[verifier::reject_recursive_types(L)]
pub struct Tr<L> {
    internal_key: String,
    tree: Option<TapTree<L>>,
}

/// The height that the depth limit is checked against: that of the tree, or
/// zero without one.
pub open spec fn opt_height<L>(tree: Option<TapTree<L>>) -> nat {
    match tree {
        Some(t) => tree_height(t),
        None => 0,
    }
}

/// The leaves of an optional tree with their depths.
pub open spec fn opt_leaves<L>(tree: Option<TapTree<L>>) -> Seq<(nat, L)> {
    match tree {
        Some(t) => tree_leaves(t),
        None => Seq::empty(),
    }
}

/// Whether an optional tree has correct cached heights.
pub open spec fn opt_wf<L>(tree: Option<TapTree<L>>) -> bool {
    match tree {
        Some(t) => t.wf(),
        None => true,
    }
}

impl<L> Tr<L> {
    /// The internal key.
    pub closed spec fn key(&self) -> Seq<char> {
        self.internal_key@
    }

    /// The tree of script-path leaves.
    pub closed spec fn tree(&self) -> Option<TapTree<L>> {
        self.tree
    }

    /// A descriptor's key is valid, and its tree well formed and within the
    /// depth limit.
    pub open spec fn wf(&self) -> bool {
        key_ok(self.key()) && opt_wf(self.tree()) && opt_height(self.tree()) <= MAX_NODE_COUNT
    }

    /// The leaves of the descriptor with their depths, in depth-first order.
    pub open spec fn leaves(&self) -> Seq<(nat, L)> {
        opt_leaves(self.tree())
    }

    /// A descriptor from its internal key and tree; fails where the key is
    /// empty or holds a comma, parenthesis or brace, and then where the tree is
    /// higher than a control block can prove.
    pub fn new(internal_key: String, tree: Option<TapTree<L>>) -> (r: Result<Self, Error>)
        requires
            opt_wf(tree),
        ensures
            r is Ok <==> key_ok(internal_key@) && opt_height(tree) <= MAX_NODE_COUNT,
            !key_ok(internal_key@) ==> r == Err::<Self, Error>(Error::Parse(ParseError::BadKey)),
            key_ok(internal_key@) && opt_height(tree) > MAX_NODE_COUNT ==> r == Err::<Self, Error>(
                Error::MaxRecursiveDepthExceeded,
            ),
            r matches Ok(d) ==> d.wf() && d.key() == internal_key@ && d.tree() == tree,
    {
        if !key_is_valid(&internal_key) {
            return Err(Error::Parse(ParseError::BadKey));
        }
        let nodes: usize = match &tree {
            Some(t) => t.height(),
            None => 0,
        };
        if nodes <= MAX_NODE_COUNT {
            Ok(Tr { internal_key, tree })
        } else {
            Err(Error::MaxRecursiveDepthExceeded)
        }
    }

    /// The internal key.
    pub fn internal_key(&self) -> (r: &String)
        ensures
            r@ == self.key(),
    {
        &self.internal_key
    }

    /// The tree of script-path leaves.
    pub fn tap_tree(&self) -> (r: &Option<TapTree<L>>)
        ensures
            *r == self.tree(),
    {
        &self.tree
    }

    /// The tree of script-path leaves (older name of `tap_tree`).
    pub fn taptree(&self) -> (r: &Option<TapTree<L>>)
        ensures
            *r == self.tree(),
    {
        self.tap_tree()
    }

    /// A depth-first walk over the leaves; empty without a tree.
    pub fn iter_scripts(&self) -> (r: TapTreeIter<'_, L>)
        requires
            self.wf(),
        ensures
            r.wf(),
            r.remaining() == self.leaves(),
    {
        match &self.tree {
            Some(t) => t.iter(),
            None => TapTreeIter::empty(),
        }
    }
}

/// Why a translation failed.
#[derive(Debug, Clone, PartialEq, Eq)]
pub enum TranslateErr {
    /// The leaf at this depth-first position could not be mapped.
    Leaf(usize),
    /// The internal key could not be mapped.
    Key,
    /// The mapped descriptor is not valid.
    Outer(Error),
}

/// Whether a key is valid: not empty, and without a comma, parenthesis or brace.
fn key_is_valid(k: &String) -> (r: bool)
    ensures
        r == key_ok(k@),
{
    let s = k.as_str();
    let n = s.unicode_len();
    if n == 0 {
        return false;
    }
    let mut i: usize = 0;
    while i < n
        invariant
            n == s@.len(),
            s@ == k@,
            i <= n,
            forall|j: int|
                0 <= j < i ==> {
                    &&& #[trigger] k@[j] != ','
                    &&& k@[j] != '('
                    &&& k@[j] != ')'
                    &&& k@[j] != '{'
                    &&& k@[j] != '}'
                },
        decreases n - i,
    {
        let c = s.get_char(i);
        if c == ',' || c == '(' || c == ')' || c == '{' || c == '}' {
            return false;
        }
        i = i + 1;
    }
    true
}

impl<L> Tr<L> {
    /// Whether a key predicate holds of every key: `leaf_results` holds its
    /// answer for each leaf's keys in depth-first order, `key_result` its
    /// answer for the internal key. The leaves are asked first.
    pub fn for_each_key(&self, leaf_results: &Vec<bool>, key_result: bool) -> (r: bool)
        requires
            leaf_results@.len() == self.leaves().len(),
        ensures
            r == ((forall|i: int| 0 <= i < leaf_results@.len() ==> #[trigger] leaf_results@[i])
                && key_result),
    {
        let mut i: usize = 0;
        while i < leaf_results.len()
            invariant
                i <= leaf_results@.len(),
                forall|j: int| 0 <= j < i ==> #[trigger] leaf_results@[j],
            decreases leaf_results@.len() - i,
        {
            if !leaf_results[i] {
                return false;
            }
            i = i + 1;
        }
        key_result
    }

    /// The first failure, in depth-first order, among the leaves' own safety
    /// checks `leaf_checks`; `Ok` where every leaf passed.
    pub fn sanity_check(&self, leaf_checks: Vec<Result<(), Error>>) -> (r: Result<(), Error>)
        requires
            leaf_checks@.len() == self.leaves().len(),
        ensures
            r is Ok <==> forall|i: int| 0 <= i < leaf_checks@.len() ==> (#[trigger] leaf_checks@[i]) is Ok,
            r matches Err(e) ==> exists|i: int|
                0 <= i < leaf_checks@.len() && leaf_checks@[i] == Err::<(), Error>(e) && forall|j: int|
                    0 <= j < i ==> (#[trigger] leaf_checks@[j]) is Ok,
    {
        let mut i: usize = 0;
        while i < leaf_checks.len()
            invariant
                i <= leaf_checks@.len(),
                forall|j: int| 0 <= j < i ==> (#[trigger] leaf_checks@[j]) is Ok,
            decreases leaf_checks@.len() - i,
        {
            if leaf_checks[i].is_err() {
                let mut leaf_checks = leaf_checks;
                return leaf_checks.swap_remove(i);
            }
            i = i + 1;
        }
        Ok(())
    }

    /// This descriptor with the mapped key and the mapped leaves `leaves`, in
    /// depth-first order; fails at the first leaf that could not be mapped,
    /// then where the key could not be mapped or is not valid.
    pub fn translate_results<M>(&self, key: Option<String>, leaves: Vec<Option<M>>) -> (r: Result<
        Tr<M>,
        TranslateErr,
    >)
        requires
            self.wf(),
            leaves@.len() == self.leaves().len(),
        ensures
            (exists|j: int| 0 <= j < leaves@.len() && (#[trigger] leaves@[j]) is None) ==> (r matches Err(
                TranslateErr::Leaf(_),
            )),
            r matches Err(TranslateErr::Leaf(i)) ==> 0 <= i < leaves@.len() && leaves@[i as int] is None
                && forall|j: int| 0 <= j < i ==> (#[trigger] leaves@[j]) is Some,
            (forall|j: int| 0 <= j < leaves@.len() ==> (#[trigger] leaves@[j]) is Some) ==> match key {
                None => r == Err::<Tr<M>, TranslateErr>(TranslateErr::Key),
                Some(k) => (r is Ok <==> key_ok(k@)) && (!key_ok(k@) ==> r == Err::<
                    Tr<M>,
                    TranslateErr,
                >(TranslateErr::Outer(Error::Parse(ParseError::BadKey)))),
            },
            r matches Ok(d) ==> d.wf() && (key matches Some(k) && d.key() == k@) && (self.tree() is None
                <==> d.tree() is None) && (self.tree() matches Some(t) ==> (d.tree() matches Some(u)
                && same_shape(t, u) && forall|j: int|
                0 <= j < leaves@.len() ==> leaves@[j] == Some(#[trigger] leaf_list(u)[j]))),
    {
        let tree = match &self.tree {
            Some(t) => {
                proof {
                    lemma_leaves_at_list(t, 0);
                }
                match t.translate_results(leaves) {
                    Ok(u) => Some(u),
                    Err(i) => {
                        return Err(TranslateErr::Leaf(i));
                    },
                }
            },
            None => None,
        };
        let key = match key {
            Some(k) => k,
            None => {
                return Err(TranslateErr::Key);
            },
        };
        match Tr::new(key, tree) {
            Ok(d) => Ok(d),
            Err(e) => Err(TranslateErr::Outer(e)),
        }
    }

    /// This descriptor with `key` as its internal key and `leaves`, in
    /// depth-first order, in place of its leaves; the tree keeps its shape.
    pub fn translate_pk<M>(&self, key: String, leaves: Vec<M>) -> (r: Tr<M>)
        requires
            self.wf(),
            key_ok(key@),
            leaves@.len() == self.leaves().len(),
        ensures
            r.wf(),
            r.key() == key@,
            self.tree() is None <==> r.tree() is None,
            self.tree() matches Some(t) ==> (r.tree() matches Some(u) && same_shape(t, u)
                && leaf_list(u) == leaves@),
    {
        let tree = match &self.tree {
            Some(t) => {
                proof {
                    lemma_leaves_at_list(t, 0);
                }
                Some(t.translate(leaves))
            },
            None => None,
        };
        Tr { internal_key: key, tree }
    }
}

impl Tr<TapLeaf> {
    /// Fails on the first leaf, in depth-first order, that is not a top-level
    /// script expression, with that leaf's text.
    pub fn check_top_level(&self) -> (r: Result<(), Error>)
        requires
            self.wf(),
        ensures
            r is Ok <==> forall|i: int|
                0 <= i < self.leaves().len() ==> (#[trigger] self.leaves()[i]).1.top_level,
            r matches Err(e) ==> exists|i: int|
                0 <= i < self.leaves().len() && !self.leaves()[i].1.top_level && (forall|j: int|
                    0 <= j < i ==> (#[trigger] self.leaves()[j]).1.top_level) && e
                    == Error::NonTopLevel(self.leaves()[i].1.text),
    {
        let ghost all = self.leaves();
        let mut it: TapTreeIter<'_, TapLeaf> = self.iter_scripts();
        let ghost mut seen: int = 0;
        loop
            invariant
                it.wf(),
                all == self.leaves(),
                0 <= seen <= all.len(),
                it.remaining() == all.subrange(seen, all.len() as int),
                forall|j: int| 0 <= j < seen ==> (#[trigger] all[j]).1.top_level,
            decreases all.len() - seen,
        {
            let ghost pre = it.remaining();
            match it.next() {
                None => {
                    return Ok(());
                },
                Some((_depth, leaf)) => {
                    proof {
                        assert(pre[0] == all[seen]);
                        assert(it.remaining() =~= all.subrange(seen + 1, all.len() as int));
                    }
                    if !leaf.top_level {
                        return Err(Error::NonTopLevel(leaf.text.clone()));
                    }
                    proof {
                        seen = seen + 1;
                    }
                },
            }
        }
    }
}

} // verus!
