//! Choosing the cheapest way to spend a descriptor.
use crate::descriptor::Tr;
use crate::error::Error;
use crate::leaf::TapLeaf;
use crate::spend::copy_bytes;
use crate::tree::TapTreeIter;
use crate::weight::{capped, varint_len, varint_len_spec};
use vstd::prelude::*;

verus! {

/// An item of a planned witness, before concrete signatures stand in it.
#[derive(Debug, Clone, PartialEq, Eq)]
pub enum Placeholder {
    /// A Schnorr signature of this many bytes for the key-path spend.
    KeySpendSig(usize),
    /// An item of this many bytes that a leaf's own satisfaction needs.
    Item(usize),
    /// The encoded script of the leaf being spent.
    TapScript(Vec<u8>),
    /// The control block of the leaf being spent.
    TapControlBlock(Vec<u8>),
}

/// The witness of a plan.
#[derive(Debug, Clone, PartialEq, Eq)]
pub enum Witness {
    /// The stack, bottom first.
    Stack(Vec<Placeholder>),
    /// No satisfaction with the material at hand.
    Unavailable,
    /// No satisfaction at all.
    Impossible,
}

/// A planned satisfaction: its witness and what it commits the spender to.
#[derive(Debug, Clone, PartialEq, Eq)]
pub struct Satisfaction {
    /// The witness stack, or why there is none.
    pub stack: Witness,
    /// Whether the witness holds a signature.
    pub has_sig: bool,
    /// The absolute timelock the spend needs, if any.
    pub absolute_timelock: Option<u32>,
    /// The relative timelock the spend needs, if any.
    pub relative_timelock: Option<u32>,
}

/// The byte length of an item.
pub open spec fn item_len(p: Placeholder) -> int {
    match p {
        Placeholder::KeySpendSig(n) => n as int,
        Placeholder::Item(n) => n as int,
        Placeholder::TapScript(s) => s@.len() as int,
        Placeholder::TapControlBlock(c) => c@.len() as int,
    }
}

/// The serialized size of an item: its length prefix and its bytes.
pub open spec fn item_size(p: Placeholder) -> int {
    varint_len_spec(item_len(p)) + item_len(p)
}

/// The serialized size of the items of `s`.
pub open spec fn items_size(s: Seq<Placeholder>) -> int
    decreases s.len(),
{
    if s.len() == 0 {
        0
    } else {
        items_size(s.drop_last()) + item_size(s.last())
    }
}

/// The serialized size of a witness stack: the item count's prefix and the items.
pub open spec fn witness_size_spec(s: Seq<Placeholder>) -> int {
    varint_len_spec(s.len() as int) + items_size(s)
}

/// The serialized size of a leaf's satisfaction `items` followed by the
/// leaf's script and its control block `cb`.
pub open spec fn script_spend_size(items: Seq<Placeholder>, script: Seq<u8>, cb: Seq<u8>) -> int {
    varint_len_spec(items.len() + 2int) + items_size(items) + varint_len_spec(script.len() as int)
        + script.len() + varint_len_spec(cb.len() as int) + cb.len()
}

/// The size of the spend through a leaf whose own satisfaction is `t`,
/// capped at the largest `usize`; `None` where `t` has no witness stack.
pub open spec fn candidate_size(t: Satisfaction, script: Seq<u8>, cb: Seq<u8>) -> Option<int> {
    match t.stack {
        Witness::Stack(items) => Some(
            capped(script_spend_size(items@, script, cb), usize::MAX as int),
        ),
        _ => None,
    }
}

/// The candidate sizes of every leaf, in depth-first order.
pub open spec fn candidate_sizes(
    leaves: Seq<(nat, TapLeaf)>,
    templates: Seq<Satisfaction>,
    cbs: Seq<Vec<u8>>,
) -> Seq<Option<int>> {
    Seq::new(
        leaves.len(),
        |i: int| candidate_size(templates[i], leaves[i].1.script@, cbs[i]@),
    )
}

/// Candidate `i` has the smallest size, and every candidate before it is larger.
pub open spec fn is_best(sizes: Seq<Option<int>>, i: int) -> bool {
    &&& 0 <= i < sizes.len()
    &&& sizes[i] is Some
    &&& forall|j: int|
        0 <= j < sizes.len() && #[trigger] sizes[j] is Some ==> sizes[i]->Some_0
            <= sizes[j]->Some_0
    &&& forall|j: int|
        0 <= j < i && #[trigger] sizes[j] is Some ==> sizes[j]->Some_0 > sizes[i]->Some_0
}

/// No leaf has a candidate.
pub open spec fn no_candidate(sizes: Seq<Option<int>>) -> bool {
    forall|j: int| 0 <= j < sizes.len() ==> #[trigger] sizes[j] is None
}

/// `r` is the spend through a leaf with satisfaction `t`, script `script` and
/// control block `cb`.
pub open spec fn is_script_spend(
    r: Satisfaction,
    t: Satisfaction,
    script: Seq<u8>,
    cb: Seq<u8>,
) -> bool {
    &&& r.has_sig == t.has_sig
    &&& r.absolute_timelock == t.absolute_timelock
    &&& r.relative_timelock == t.relative_timelock
    &&& t.stack matches Witness::Stack(items)
    &&& r.stack matches Witness::Stack(v)
    &&& v@.len() == items@.len() + 2
    &&& v@.subrange(0, items@.len() as int) == items@
    &&& v@[items@.len() as int] matches Placeholder::TapScript(s) && s@ == script
    &&& v@[items@.len() + 1int] matches Placeholder::TapControlBlock(c) && c@ == cb
}

/// `r` is the key-path spend with a signature of `size` bytes.
pub open spec fn is_key_spend(r: Satisfaction, size: usize) -> bool {
    &&& r.stack matches Witness::Stack(v) && v@ == seq![Placeholder::KeySpendSig(size)]
    &&& r.has_sig
    &&& r.absolute_timelock is None
    &&& r.relative_timelock is None
}

/// `r` is the plan that records that nothing could be satisfied.
pub open spec fn is_unavailable(r: Satisfaction) -> bool {
    &&& r.stack is Unavailable
    &&& !r.has_sig
    &&& r.absolute_timelock is None
    &&& r.relative_timelock is None
}

/// `r` is the plan for a descriptor with leaves `leaves`: the key-path spend
/// where `key_sig` is there, else the spend through the best leaf, else a plan
/// that records that nothing is available.
pub open spec fn is_plan(
    leaves: Seq<(nat, TapLeaf)>,
    key_sig: Option<usize>,
    templates: Seq<Satisfaction>,
    control_blocks: Seq<Vec<u8>>,
    r: Satisfaction,
) -> bool {
    &&& key_sig matches Some(s) ==> is_key_spend(r, s)
    &&& key_sig is None ==> {
        let sizes = candidate_sizes(leaves, templates, control_blocks);
        &&& no_candidate(sizes) ==> is_unavailable(r)
        &&& forall|i: int|
            #[trigger] is_best(sizes, i) ==> is_script_spend(
                r,
                templates[i],
                leaves[i].1.script@,
                control_blocks[i]@,
            )
    }
}

/// Pushing an item adds its serialized size.
pub proof fn lemma_items_size_push(s: Seq<Placeholder>, p: Placeholder)
    ensures
        items_size(s.push(p)) == items_size(s) + item_size(p),
{
    assert(s.push(p).drop_last() =~= s);
}

/// The serialized size of a witness stack, capped at the largest `usize`.
pub fn witness_size(wit: &Vec<Placeholder>) -> (r: usize)
    ensures
        r as int == capped(witness_size_spec(wit@), usize::MAX as int),
{
    proof {
        lemma_items_size_nonneg(wit@);
    }
    items_total(wit).saturating_add(varint_len(wit.len() as u64))
}

/// The serialized size of the items of `wit`, capped at the largest `usize`.
fn items_total(wit: &Vec<Placeholder>) -> (r: usize)
    ensures
        r as int == capped(items_size(wit@), usize::MAX as int),
{
    let mut total: usize = 0;
    let mut i: usize = 0;
    while i < wit.len()
        invariant
            i <= wit.len(),
            total as int == capped(items_size(wit@.subrange(0, i as int)), usize::MAX as int),
        decreases wit.len() - i,
    {
        let n: usize = match &wit[i] {
            Placeholder::KeySpendSig(n) => *n,
            Placeholder::Item(n) => *n,
            Placeholder::TapScript(s) => s.len(),
            Placeholder::TapControlBlock(c) => c.len(),
        };
        proof {
            assert(wit@.subrange(0, i + 1) =~= wit@.subrange(0, i as int).push(wit@[i as int]));
            lemma_items_size_push(wit@.subrange(0, i as int), wit@[i as int]);
            lemma_items_size_nonneg(wit@.subrange(0, i as int));
        }
        total = total.saturating_add(varint_len(n as u64)).saturating_add(n);
        i += 1;
    }
    proof {
        assert(wit@.subrange(0, i as int) =~= wit@);
    }
    total
}

/// The capped size of the spend through a leaf with satisfaction `t`.
fn candidate(t: &Satisfaction, script: &Vec<u8>, cb: &Vec<u8>) -> (r: Option<usize>)
    ensures
        match candidate_size(*t, script@, cb@) {
            Some(x) => r == Some(x as usize) && 0 <= x <= usize::MAX,
            None => r is None,
        },
{
    match &t.stack {
        Witness::Stack(items) => {
            proof {
                lemma_items_size_nonneg(items@);
            }
            let n = items.len() as u64;
            let count: usize = if n <= u64::MAX - 2 {
                varint_len(n + 2)
            } else {
                9
            };
            let sl = script.len();
            let cl = cb.len();
            let total = items_total(items).saturating_add(count).saturating_add(
                varint_len(sl as u64),
            ).saturating_add(sl).saturating_add(varint_len(cl as u64)).saturating_add(cl);
            Some(total)
        },
        _ => None,
    }
}

impl Tr<TapLeaf> {
    /// The cheapest plan to spend this descriptor. `key_sig` is the size of the
    /// key-path signature that the signer can make, if it can; `templates`
    /// holds each leaf's own satisfaction as the script component built it
    /// with the signer's material, and `control_blocks` each leaf's control
    /// block, both in depth-first order. The key path wins whenever it is
    /// available; else the leaf with the smallest witness, the earliest one
    /// among equals; else a plan that records that nothing is available.
    pub fn best_tap_spend(
        &self,
        key_sig: Option<usize>,
        templates: Vec<Satisfaction>,
        control_blocks: &Vec<Vec<u8>>,
    ) -> (r: Satisfaction)
        requires
            self.wf(),
            templates@.len() == self.leaves().len(),
            control_blocks@.len() == self.leaves().len(),
        ensures
            is_plan(self.leaves(), key_sig, templates@, control_blocks@, r),
    {
        if let Some(size) = key_sig {
            let mut v: Vec<Placeholder> = Vec::new();
            v.push(Placeholder::KeySpendSig(size));
            proof {
                assert(v@ =~= seq![Placeholder::KeySpendSig(size)]);
            }
            return Satisfaction {
                stack: Witness::Stack(v),
                has_sig: true,
                absolute_timelock: None,
                relative_timelock: None,
            };
        }
        let ghost leaves = self.leaves();
        let ghost sizes = candidate_sizes(leaves, templates@, control_blocks@);
        let mut it: TapTreeIter<'_, TapLeaf> = self.iter_scripts();
        let n: usize = templates.len();
        let mut i: usize = 0;
        let mut best: Option<usize> = None;
        let mut best_size: usize = 0;
        let mut best_leaf: Option<&TapLeaf> = None;
        loop
            invariant
                it.wf(),
                leaves == self.leaves(),
                sizes == candidate_sizes(leaves, templates@, control_blocks@),
                templates@.len() == leaves.len(),
                control_blocks@.len() == leaves.len(),
                n == leaves.len(),
                i <= leaves.len(),
                it.remaining() == leaves.subrange(i as int, leaves.len() as int),
                best is None ==> no_candidate(sizes.subrange(0, i as int)),
                best matches Some(k) ==> {
                    &&& is_best(sizes.subrange(0, i as int), k as int)
                    &&& k < i
                    &&& sizes[k as int] == Some(best_size as int)
                    &&& best_leaf matches Some(l) && *l == leaves[k as int].1
                },
            ensures
                i == leaves.len(),
                best is None ==> no_candidate(sizes),
                best matches Some(k) ==> {
                    &&& is_best(sizes, k as int)
                    &&& best_leaf matches Some(l) && *l == leaves[k as int].1
                },
            decreases leaves.len() - i,
        {
            let ghost pre = it.remaining();
            match it.next() {
                None => {
                    proof {
                        assert(sizes.subrange(0, i as int) =~= sizes);
                    }
                    break;
                },
                Some((_depth, leaf)) => {
                    proof {
                        assert(i < leaves.len());
                        assert(pre[0] == leaves[i as int]);
                        assert(it.remaining() =~= leaves.subrange(i + 1, leaves.len() as int));
                    }
                    let c = candidate(&templates[i], &leaf.script, &control_blocks[i]);
                    let ghost prev = sizes.subrange(0, i as int);
                    let ghost next = sizes.subrange(0, i + 1);
                    proof {
                        assert(sizes[i as int] == candidate_size(
                            templates@[i as int],
                            leaves[i as int].1.script@,
                            control_blocks@[i as int]@,
                        ));
                        assert forall|j: int| 0 <= j < i implies #[trigger] next[j] == prev[j] by {}
                        assert(next[i as int] == sizes[i as int]);
                    }
                    match c {
                        None => {
                            proof {
                                assert forall|j: int| 0 <= j < next.len() && #[trigger] next[j] is Some
                                    implies j < i by {}
                                if best is None {
                                    assert forall|j: int| 0 <= j < next.len() implies #[trigger] next[j]
                                        is None by {
                                        if j < i {
                                            assert(next[j] == prev[j]);
                                        }
                                    }
                                } else {
                                    let k = best->Some_0 as int;
                                    assert(next[k] == prev[k]);
                                    assert forall|j: int| 0 <= j < next.len() && #[trigger] next[j] is Some
                                        implies next[k]->Some_0 <= next[j]->Some_0 by {
                                        assert(next[j] == prev[j]);
                                    }
                                    assert forall|j: int| 0 <= j < k && #[trigger] next[j] is Some
                                        implies next[j]->Some_0 > next[k]->Some_0 by {
                                        assert(next[j] == prev[j]);
                                    }
                                }
                            }
                        },
                        Some(sz) => {
                            let better = match best {
                                None => true,
                                Some(_) => sz < best_size,
                            };
                            if better {
                                proof {
                                    assert forall|j: int| 0 <= j < next.len() && #[trigger] next[j] is Some
                                        implies next[i as int]->Some_0 <= next[j]->Some_0 by {
                                        if j < i {
                                            assert(next[j] == prev[j]);
                                            if let Some(k) = best {
                                                assert(prev[k as int]->Some_0 <= prev[j]->Some_0);
                                            }
                                        }
                                    }
                                    assert forall|j: int| 0 <= j < i && #[trigger] next[j] is Some
                                        implies next[j]->Some_0 > next[i as int]->Some_0 by {
                                        assert(next[j] == prev[j]);
                                        if let Some(k) = best {
                                            assert(prev[k as int]->Some_0 <= prev[j]->Some_0);
                                        }
                                    }
                                }
                                best = Some(i);
                                best_size = sz;
                                best_leaf = Some(leaf);
                            } else {
                                proof {
                                    let k = best->Some_0 as int;
                                    assert(next[k] == prev[k]);
                                    assert forall|j: int| 0 <= j < next.len() && #[trigger] next[j] is Some
                                        implies next[k]->Some_0 <= next[j]->Some_0 by {
                                        if j < i {
                                            assert(next[j] == prev[j]);
                                        }
                                    }
                                    assert forall|j: int| 0 <= j < k && #[trigger] next[j] is Some
                                        implies next[j]->Some_0 > next[k]->Some_0 by {
                                        assert(next[j] == prev[j]);
                                    }
                                }
                            }
                        },
                    }
                    i = i + 1;
                },
            }
        }
        let unavailable = Satisfaction {
            stack: Witness::Unavailable,
            has_sig: false,
            absolute_timelock: None,
            relative_timelock: None,
        };
        match (best, best_leaf) {
            (Some(k), Some(leaf)) => {
                proof {
                    lemma_best_unique(sizes, k as int);
                }
                let mut templates = templates;
                let ghost tk = templates@[k as int];
                let chosen = templates.swap_remove(k);
                match chosen.stack {
                    Witness::Stack(mut items) => {
                        let ghost orig = items@;
                        items.push(Placeholder::TapScript(copy_bytes(&leaf.script)));
                        items.push(Placeholder::TapControlBlock(copy_bytes(&control_blocks[k])));
                        proof {
                            assert(items@.subrange(0, orig.len() as int) =~= orig);
                        }
                        Satisfaction {
                            stack: Witness::Stack(items),
                            has_sig: chosen.has_sig,
                            absolute_timelock: chosen.absolute_timelock,
                            relative_timelock: chosen.relative_timelock,
                        }
                    },
                    _ => unavailable,
                }
            },
            _ => unavailable,
        }
    }
}

impl Tr<TapLeaf> {
    /// The plan from leaf satisfactions built without malleability; see
    /// `best_tap_spend`.
    pub fn plan_satisfaction(
        &self,
        key_sig: Option<usize>,
        templates: Vec<Satisfaction>,
        control_blocks: &Vec<Vec<u8>>,
    ) -> (r: Satisfaction)
        requires
            self.wf(),
            templates@.len() == self.leaves().len(),
            control_blocks@.len() == self.leaves().len(),
        ensures
            is_plan(self.leaves(), key_sig, templates@, control_blocks@, r),
    {
        self.best_tap_spend(key_sig, templates, control_blocks)
    }

    /// The plan from leaf satisfactions that may be malleable; see
    /// `best_tap_spend`.
    pub fn plan_satisfaction_mall(
        &self,
        key_sig: Option<usize>,
        templates: Vec<Satisfaction>,
        control_blocks: &Vec<Vec<u8>>,
    ) -> (r: Satisfaction)
        requires
            self.wf(),
            templates@.len() == self.leaves().len(),
            control_blocks@.len() == self.leaves().len(),
        ensures
            is_plan(self.leaves(), key_sig, templates@, control_blocks@, r),
    {
        self.best_tap_spend(key_sig, templates, control_blocks)
    }

    /// The witness stack of the plan from non-malleable leaf satisfactions,
    /// ready for its signatures; fails where the plan has no stack.
    pub fn get_satisfaction(
        &self,
        key_sig: Option<usize>,
        templates: Vec<Satisfaction>,
        control_blocks: &Vec<Vec<u8>>,
    ) -> (r: Result<Vec<Placeholder>, Error>)
        requires
            self.wf(),
            templates@.len() == self.leaves().len(),
            control_blocks@.len() == self.leaves().len(),
        ensures
            exists|p: Satisfaction|
                is_plan(self.leaves(), key_sig, templates@, control_blocks@, p) && match p.stack {
                    Witness::Stack(v) => r == Ok::<Vec<Placeholder>, Error>(v),
                    _ => r == Err::<Vec<Placeholder>, Error>(Error::CouldNotSatisfy),
                },
    {
        let p = self.best_tap_spend(key_sig, templates, control_blocks);
        stack_of(p)
    }

    /// The witness stack of the plan from possibly malleable leaf
    /// satisfactions; fails where the plan has no stack.
    pub fn get_satisfaction_mall(
        &self,
        key_sig: Option<usize>,
        templates: Vec<Satisfaction>,
        control_blocks: &Vec<Vec<u8>>,
    ) -> (r: Result<Vec<Placeholder>, Error>)
        requires
            self.wf(),
            templates@.len() == self.leaves().len(),
            control_blocks@.len() == self.leaves().len(),
        ensures
            exists|p: Satisfaction|
                is_plan(self.leaves(), key_sig, templates@, control_blocks@, p) && match p.stack {
                    Witness::Stack(v) => r == Ok::<Vec<Placeholder>, Error>(v),
                    _ => r == Err::<Vec<Placeholder>, Error>(Error::CouldNotSatisfy),
                },
    {
        let p = self.best_tap_spend(key_sig, templates, control_blocks);
        stack_of(p)
    }
}

/// The stack of a plan, or `CouldNotSatisfy` where it has none.
fn stack_of(p: Satisfaction) -> (r: Result<Vec<Placeholder>, Error>)
    ensures
        match p.stack {
            Witness::Stack(v) => r == Ok::<Vec<Placeholder>, Error>(v),
            _ => r == Err::<Vec<Placeholder>, Error>(Error::CouldNotSatisfy),
        },
{
    match p.stack {
        Witness::Stack(v) => Ok(v),
        _ => Err(Error::CouldNotSatisfy),
    }
}

/// At most one candidate is the best.
pub proof fn lemma_best_unique(sizes: Seq<Option<int>>, k: int)
    requires
        is_best(sizes, k),
    ensures
        forall|i: int| #[trigger] is_best(sizes, i) ==> i == k,
{
    assert forall|i: int| #[trigger] is_best(sizes, i) implies i == k by {
        if i < k {
            assert(sizes[i] is Some);
        } else if i > k {
            assert(sizes[k] is Some);
        }
    }
}

/// Serialized sizes are never negative.
pub proof fn lemma_items_size_nonneg(s: Seq<Placeholder>)
    ensures
        items_size(s) >= 0,
    decreases s.len(),
{
    if s.len() > 0 {
        lemma_items_size_nonneg(s.drop_last());
    }
}

} // verus!
