//! Properties that tie the planner, the estimator and the tree together.
use crate::leaf::TapLeaf;
use crate::plan::{
    candidate_sizes, is_best, is_plan, is_script_spend, item_size, items_size,
    lemma_items_size_nonneg, lemma_items_size_push, no_candidate, witness_size_spec, Placeholder,
    Satisfaction, Witness,
};
use crate::weight::{
    control_block_len_spec, is_max_of, key_spend_weight, none_of, leaf_weight, varint_len_spec, with_key_path,
};
use vstd::prelude::*;

verus! {

/// Of two leaves whose witnesses have the same size, the later one is never
/// the planner's choice.
pub proof fn lemma_tie_keeps_first(sizes: Seq<Option<int>>, i: int, j: int)
    requires
        0 <= i < j < sizes.len(),
        sizes[i] is Some,
        sizes[i] == sizes[j],
    ensures
        !is_best(sizes, j),
{
    if is_best(sizes, j) {
        assert(sizes[i] is Some);
    }
}

/// Where some leaf has a witness, exactly one leaf is the best.
pub proof fn lemma_best_exists(sizes: Seq<Option<int>>)
    requires
        !no_candidate(sizes),
    ensures
        exists|k: int| is_best(sizes, k),
    decreases sizes.len(),
{
    let last = sizes.len() - 1;
    let init = sizes.drop_last();
    if no_candidate(init) {
        assert(sizes[last] is Some) by {
            if sizes[last] is None {
                assert forall|j: int| 0 <= j < sizes.len() implies #[trigger] sizes[j] is None by {
                    if j < last {
                        assert(init[j] is None);
                    }
                }
            }
        }
        assert forall|j: int| 0 <= j < last implies #[trigger] sizes[j] is None by {
            assert(init[j] is None);
        }
        assert(is_best(sizes, last));
    } else {
        lemma_best_exists(init);
        let k = choose|k: int| is_best(init, k);
        assert forall|j: int| 0 <= j < k implies #[trigger] sizes[j] == init[j] by {}
        assert(sizes[k] == init[k]);
        if sizes[last] is Some && sizes[last]->Some_0 < sizes[k]->Some_0 {
            assert forall|j: int| 0 <= j < last && #[trigger] sizes[j] is Some implies sizes[j]->Some_0
                > sizes[last]->Some_0 by {
                assert(sizes[j] == init[j]);
            }
            assert(is_best(sizes, last));
        } else {
            assert forall|j: int| 0 <= j < sizes.len() && #[trigger] sizes[j] is Some implies sizes[k]->Some_0
                <= sizes[j]->Some_0 by {
                if j < last {
                    assert(sizes[j] == init[j]);
                }
            }
            assert(is_best(sizes, k));
        }
    }
}

proof fn lemma_varint_mono(a: int, b: int)
    requires
        a <= b,
    ensures
        varint_len_spec(a) <= varint_len_spec(b),
{
}

/// Each leaf's own satisfaction stays within the bounds the leaf declares, and
/// each control block has the length of its leaf's depth.
pub open spec fn templates_within_bounds(
    leaves: Seq<(nat, TapLeaf)>,
    templates: Seq<Satisfaction>,
    control_blocks: Seq<Vec<u8>>,
) -> bool {
    forall|i: int|
        0 <= i < leaves.len() ==> match #[trigger] templates[i].stack {
            Witness::Stack(items) => {
                &&& leaves[i].1.max_sat_elems matches Some(e) && items@.len() + 1 <= e
                &&& leaves[i].1.max_sat_size matches Some(z) && items_size(items@) <= z
                &&& control_blocks[i]@.len() == control_block_len_spec(leaves[i].0 as int)
            },
            _ => true,
        }
}

/// A witness that the planner produces adds no more weight to an input than
/// the estimator's bound `w`, where the leaves' satisfactions stay within the
/// leaves' declared bounds and a key-path signature has at most 65 bytes.
/// `lw` is the largest bound of a leaf that can be satisfied, and `w` the
/// larger of it and the key-path bound (the key-path bound alone where no
/// leaf can be).
pub proof fn lemma_plan_within_estimate(
    leaves: Seq<(nat, TapLeaf)>,
    key_sig: Option<usize>,
    templates: Seq<Satisfaction>,
    control_blocks: Seq<Vec<u8>>,
    r: Satisfaction,
    lw: int,
    w: int,
)
    requires
        templates.len() == leaves.len(),
        control_blocks.len() == leaves.len(),
        templates_within_bounds(leaves, templates, control_blocks),
        is_plan(leaves, key_sig, templates, control_blocks, r),
        none_of(leaves, false) ==> w == key_spend_weight(),
        !none_of(leaves, false) ==> is_max_of(leaves, false, lw) && w == with_key_path(lw),
        key_sig matches Some(s) ==> s <= 65,
    ensures
        r.stack matches Witness::Stack(v) ==> witness_size_spec(v@) - varint_len_spec(0) <= w,
{
    if let Some(s) = key_sig {
        if let Witness::Stack(v) = r.stack {
            assert(v@ == seq![Placeholder::KeySpendSig(s)]);
            assert(v@.drop_last() =~= Seq::<Placeholder>::empty());
            assert(items_size(Seq::<Placeholder>::empty()) == 0);
            assert(v@.last() == Placeholder::KeySpendSig(s));
            assert(items_size(v@) == item_size(Placeholder::KeySpendSig(s)));
        }
    } else {
        let sizes = candidate_sizes(leaves, templates, control_blocks);
        if !no_candidate(sizes) {
            lemma_best_exists(sizes);
            let k = choose|k: int| is_best(sizes, k);
            assert(is_script_spend(r, templates[k], leaves[k].1.script@, control_blocks[k]@));
            if let Witness::Stack(v) = r.stack {
                if let Witness::Stack(items) = templates[k].stack {
                    let n: int = items@.len() as int;
                    let a = v@[n];
                    let b = v@[n + 1];
                    assert(v@ =~= items@.push(a).push(b));
                    lemma_items_size_push(items@, a);
                    lemma_items_size_push(items@.push(a), b);
                    lemma_items_size_nonneg(items@);
                    let e = leaves[k].1.max_sat_elems->Some_0 as int;
                    lemma_varint_mono(n + 2, e + 1);
                    assert(leaf_weight(leaves[k].0 as int, leaves[k].1) is Some);
                    assert(!none_of(leaves, false)) by {
                        assert(crate::weight::bound_of(false, leaves[k].0 as int, leaves[k].1) is Some);
                    }
                    assert(is_max_of(leaves, false, lw));
                    assert(match crate::weight::bound_of(false, leaves[k].0 as int, leaves[k].1) {
                        Some(x) => x <= lw,
                        None => true,
                    });
                }
            }
        } else {
            assert(r.stack is Unavailable);
        }
    }
}

} // verus!
