//! A descriptor together with its lazily derived spend data, shared safely
//! between threads.
use crate::descriptor::Tr;
use crate::leaf::TapLeaf;
use crate::plan::{is_plan, Satisfaction};
use crate::spend::{fits_scripts, scripts_of, spend_info_fits, x_only_ok, SpendInfo};
use crate::tree::{lemma_leaves_at_list, lemma_same_shape_depths, same_shape, TapTreeIter};
use vstd::prelude::*;
use vstd::rwlock::RwLock;

verus! {

/// Two leaves with their depths agree in depth and in every field that this
/// library reads.
pub open spec fn same_leaf(a: (nat, TapLeaf), b: (nat, TapLeaf)) -> bool {
    &&& a.0 == b.0
    &&& a.1.text@ == b.1.text@
    &&& a.1.script@ == b.1.script@
    &&& a.1.top_level == b.1.top_level
    &&& a.1.max_sat_elems == b.1.max_sat_elems
    &&& a.1.max_sat_size == b.1.max_sat_size
}

/// What the cache slot of a descriptor with internal key `key` and leaves
/// scripts `sc` may hold: nothing yet, or spend data that fits the descriptor,
/// whose key then reads as an x-only key.
pub open spec fn slot_ok(key: Seq<char>, sc: Seq<(nat, Seq<u8>)>, v: Option<SpendInfo>) -> bool {
    v matches Some(info) ==> fits_scripts(info, key, sc) && x_only_ok(key)
}

/// A descriptor and its spend data, derived on first request and kept for the
/// life of this value. Concurrent first requests may each derive the data;
/// the first one stored is what every later request sees.
pub struct CachedTr {
    desc: Tr<TapLeaf>,
    slot: RwLock<Option<SpendInfo>, spec_fn(Option<SpendInfo>) -> bool>,
}

impl CachedTr {
    /// The descriptor.
    pub closed spec fn tr(&self) -> Tr<TapLeaf> {
        self.desc
    }

    /// The cache slot only ever holds spend data that fits the descriptor.
    pub closed spec fn wf(&self) -> bool {
        &&& self.desc.wf()
        &&& self.slot.pred() == |v: Option<SpendInfo>| slot_ok(self.desc.key(), scripts_of(self.desc.leaves()), v)
    }

    /// A descriptor with an empty cache.
    pub fn new(desc: Tr<TapLeaf>) -> (r: Self)
        requires
            desc.wf(),
        ensures
            r.wf(),
            r.tr() == desc,
    {
        let ghost k = desc.key();
        let ghost ls = scripts_of(desc.leaves());
        let ghost pred = |v: Option<SpendInfo>| slot_ok(k, ls, v);
        let slot = RwLock::new(None, Ghost(pred));
        CachedTr { desc, slot }
    }

    /// The descriptor.
    pub fn descriptor(&self) -> (r: &Tr<TapLeaf>)
        ensures
            *r == self.tr(),
    {
        &self.desc
    }

    /// The cached spend data, if any was derived yet.
    fn cached(&self) -> (r: Option<SpendInfo>)
        requires
            self.wf(),
        ensures
            slot_ok(self.tr().key(), scripts_of(self.tr().leaves()), r),
    {
        let handle = self.slot.acquire_read();
        let r = match handle.borrow() {
            Some(info) => Some(info.copy()),
            None => None,
        };
        handle.release_read();
        r
    }

    /// The spend data of the descriptor: the cached value, or else one derived
    /// now and stored unless another caller stored one first. `None` exactly
    /// where the internal key is not an x-only key (see `Tr::spend_info`).
    pub fn spend_info(&self) -> (r: Option<SpendInfo>)
        requires
            self.wf(),
        ensures
            r is Some <==> x_only_ok(self.tr().key()),
            r matches Some(info) ==> spend_info_fits(info, self.tr().key(), self.tr().leaves()),
    {
        if let Some(info) = self.cached() {
            proof {
                assert(slot_ok(self.tr().key(), scripts_of(self.tr().leaves()), Some(info)));
            }
            return Some(info);
        }
        let fresh = match self.desc.spend_info() {
            Some(info) => info,
            None => return None,
        };
        let (current, handle) = self.slot.acquire_write();
        let kept = match current {
            Some(first) => first,
            None => fresh,
        };
        let r = kept.copy();
        proof {
            assert(slot_ok(self.tr().key(), scripts_of(self.tr().leaves()), Some(kept)));
        }
        handle.release_write(Some(kept));
        Some(r)
    }

    /// A copy with the same key, tree shape and leaves, and a cache of its own
    /// that starts with whatever this one holds now. Either cache can only
    /// ever hold the one spend data that the key and the leaves name.
    pub fn duplicate(&self) -> (r: Self)
        requires
            self.wf(),
        ensures
            r.wf(),
            r.tr().key() == self.tr().key(),
            scripts_of(r.tr().leaves()) == scripts_of(self.tr().leaves()),
            r.tr().leaves().len() == self.tr().leaves().len(),
            forall|i: int|
                0 <= i < self.tr().leaves().len() ==> same_leaf(#[trigger] r.tr().leaves()[i], self.tr().leaves()[i]),
            self.tr().tree() is None <==> r.tr().tree() is None,
            self.tr().tree() matches Some(t) ==> (r.tr().tree() matches Some(u) && same_shape(t, u)),
    {
        let ghost all = self.desc.leaves();
        let mut copies: Vec<TapLeaf> = Vec::new();
        let mut it: TapTreeIter<'_, TapLeaf> = self.desc.iter_scripts();
        loop
            invariant
                it.wf(),
                all == self.desc.leaves(),
                copies@.len() + it.remaining().len() == all.len(),
                it.remaining() == all.subrange(copies@.len() as int, all.len() as int),
                forall|j: int|
                    0 <= j < copies@.len() ==> same_leaf((all[j].0, #[trigger] copies@[j]), all[j]),
            ensures
                copies@.len() == all.len(),
                forall|j: int|
                    0 <= j < copies@.len() ==> same_leaf((all[j].0, #[trigger] copies@[j]), all[j]),
            decreases it.remaining().len(),
        {
            let ghost pre = it.remaining();
            let ghost n = copies@.len() as int;
            match it.next() {
                None => break,
                Some((_d, leaf)) => {
                    proof {
                        assert(pre[0] == all[n]);
                        assert(it.remaining() =~= all.subrange(n + 1, all.len() as int));
                    }
                    copies.push(leaf.copy());
                },
            }
        }
        let ghost cs = copies@;
        let desc = self.desc.translate_pk(self.desc.internal_key().clone(), copies);
        proof {
            if let Some(t) = self.desc.tree() {
                let u = desc.tree()->Some_0;
                lemma_leaves_at_list(&t, 0);
                lemma_leaves_at_list(&u, 0);
                lemma_same_shape_depths(&t, &u, 0);
                assert forall|i: int| 0 <= i < all.len() implies same_leaf(#[trigger] desc.leaves()[i], all[i]) by {
                    assert(desc.leaves()[i].1 == cs[i]);
                    assert(same_leaf((all[i].0, cs[i]), all[i]));
                }
                assert(scripts_of(desc.leaves()) =~= scripts_of(all)) by {
                    assert forall|i: int| 0 <= i < all.len() implies scripts_of(desc.leaves())[i]
                        == scripts_of(all)[i] by {
                        assert(same_leaf(desc.leaves()[i], all[i]));
                    }
                }
            } else {
                assert(scripts_of(desc.leaves()) =~= scripts_of(all));
            }
        }
        let current = self.cached();
        let ghost k = desc.key();
        let ghost sc = scripts_of(desc.leaves());
        let ghost pred = |v: Option<SpendInfo>| slot_ok(k, sc, v);
        let slot = RwLock::new(current, Ghost(pred));
        CachedTr { desc, slot }
    }

    /// The cheapest plan to spend the descriptor, with the control blocks
    /// taken from its cached spend data; see `Tr::best_tap_spend`. `None`
    /// exactly where the descriptor has no spend data.
    pub fn plan_satisfaction(&self, key_sig: Option<usize>, templates: Vec<Satisfaction>) -> (r:
        Option<Satisfaction>)
        requires
            self.wf(),
            templates@.len() == self.tr().leaves().len(),
        ensures
            r is Some <==> x_only_ok(self.tr().key()),
            r matches Some(p) ==> exists|info: SpendInfo|
                #[trigger] spend_info_fits(info, self.tr().key(), self.tr().leaves()) && is_plan(
                    self.tr().leaves(),
                    key_sig,
                    templates@,
                    info.control_blocks@,
                    p,
                ),
    {
        let info = match self.spend_info() {
            Some(info) => info,
            None => return None,
        };
        let p = self.desc.best_tap_spend(key_sig, templates, &info.control_blocks);
        Some(p)
    }
}

} // verus!
