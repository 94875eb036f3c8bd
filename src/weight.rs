//! Conservative bounds on the witness weight of a spend.
use crate::descriptor::Tr;
use crate::error::Error;
use crate::leaf::TapLeaf;
use crate::tree::TapTreeIter;
use vstd::prelude::*;

verus! {

/// Bytes of a control block before its Merkle path.
pub const CONTROL_BASE_SIZE: usize = 33;

/// Bytes of each hash of a control block's Merkle path.
pub const CONTROL_NODE_SIZE: usize = 32;

/// The length of the compact-size prefix that encodes `n`.
pub open spec fn varint_len_spec(n: int) -> int {
    if n < 0xfd {
        1
    } else if n <= 0xffff {
        3
    } else if n <= 0xffff_ffff {
        5
    } else {
        9
    }
}

/// The length of a control block for a leaf at `depth`.
pub open spec fn control_block_len_spec(depth: int) -> int {
    CONTROL_BASE_SIZE + depth * CONTROL_NODE_SIZE
}

/// `x`, or `cap` where `x` is larger.
pub open spec fn capped(x: int, cap: int) -> int {
    if x > cap {
        cap
    } else {
        x
    }
}

/// The weight a key-path spend adds to an input: a stack of one item, the
/// 64-byte signature with its sighash byte and length prefix.
pub open spec fn key_spend_weight() -> int {
    (varint_len_spec(1) - varint_len_spec(0)) + 1 + 65
}

/// The weight a script-path spend through `leaf` at `depth` adds to an input at
/// most, or `None` where the leaf cannot be satisfied.
pub open spec fn leaf_weight(depth: int, leaf: TapLeaf) -> Option<int> {
    match (leaf.max_sat_elems, leaf.max_sat_size) {
        (Some(elems), Some(size)) => {
            let script = leaf.script@.len() as int;
            let cb = control_block_len_spec(depth);
            Some(
                (varint_len_spec(elems + 1) - varint_len_spec(0)) + size + varint_len_spec(script)
                    + script + varint_len_spec(cb) + cb,
            )
        },
        _ => None,
    }
}

/// `w`, or the key-path bound where that is larger: with a tree the key path
/// stays available, so a bound on the spend covers it too.
pub open spec fn with_key_path(w: int) -> int {
    if w >= key_spend_weight() {
        w
    } else {
        key_spend_weight()
    }
}

/// The older bound on a script-path spend through `leaf`: it counts four
/// bytes of script-sig length and the whole stack prefix.
pub open spec fn leaf_weight_legacy(depth: int, leaf: TapLeaf) -> Option<int> {
    match (leaf.max_sat_elems, leaf.max_sat_size) {
        (Some(elems), Some(size)) => {
            let script = leaf.script@.len() as int;
            let cb = control_block_len_spec(depth);
            Some(
                4 + varint_len_spec(elems + 2) + size + varint_len_spec(script) + script
                    + varint_len_spec(cb) + cb,
            )
        },
        _ => None,
    }
}

/// The bound of one leaf, in the older accounting where `legacy` holds.
pub open spec fn bound_of(legacy: bool, depth: int, leaf: TapLeaf) -> Option<int> {
    if legacy {
        leaf_weight_legacy(depth, leaf)
    } else {
        leaf_weight(depth, leaf)
    }
}

/// `m` is the largest bound over the leaves of `ls`.
pub open spec fn is_max_of(ls: Seq<(nat, TapLeaf)>, legacy: bool, m: int) -> bool {
    &&& exists|i: int|
        0 <= i < ls.len() && #[trigger] bound_of(legacy, ls[i].0 as int, ls[i].1) == Some(m)
    &&& forall|i: int|
        0 <= i < ls.len() ==> match #[trigger] bound_of(legacy, ls[i].0 as int, ls[i].1) {
            Some(w) => w <= m,
            None => true,
        }
}

/// No leaf of `ls` has a bound.
pub open spec fn none_of(ls: Seq<(nat, TapLeaf)>, legacy: bool) -> bool {
    forall|i: int| 0 <= i < ls.len() ==> #[trigger] bound_of(legacy, ls[i].0 as int, ls[i].1) is None
}

/// The compact-size prefix length of `n`.
pub fn varint_len(n: u64) -> (r: usize)
    ensures
        r as int == varint_len_spec(n as int),
{
    if n < 0xfd {
        1
    } else if n <= 0xffff {
        3
    } else if n <= 0xffff_ffff {
        5
    } else {
        9
    }
}

/// The length of a control block for a leaf at `depth`.
pub fn control_block_len(depth: u8) -> (r: usize)
    ensures
        r as int == control_block_len_spec(depth as int),
{
    CONTROL_BASE_SIZE + (depth as usize) * CONTROL_NODE_SIZE
}

/// The saturated bound of one leaf, in either of the two accountings.
fn leaf_bound(depth: u8, leaf: &TapLeaf, legacy: bool) -> (r: Option<u64>)
    ensures
        legacy ==> match leaf_weight_legacy(depth as int, *leaf) {
            Some(w) => r == Some(capped(w, u64::MAX as int) as u64),
            None => r is None,
        },
        !legacy ==> match leaf_weight(depth as int, *leaf) {
            Some(w) => r == Some(capped(w, u64::MAX as int) as u64),
            None => r is None,
        },
{
    let elems = match leaf.max_sat_elems {
        Some(e) => e,
        None => return None,
    };
    let size = match leaf.max_sat_size {
        Some(s) => s,
        None => return None,
    };
    let script = leaf.script.len();
    let cb = control_block_len(depth);
    proof {
        assert(bound_of(legacy, depth as int, *leaf) == if legacy {
            leaf_weight_legacy(depth as int, *leaf)
        } else {
            leaf_weight(depth as int, *leaf)
        });
    }
    let tail: u128 = size as u128 + varint_len(script as u64) as u128 + script as u128 + varint_len(
        cb as u64,
    ) as u128 + cb as u128;
    let w: u128 = if legacy {
        let stack: usize = if (elems as u64) <= u64::MAX - 2 {
            varint_len(elems as u64 + 2)
        } else {
            9
        };
        4 + stack as u128 + tail
    } else {
        let stack: usize = if (elems as u64) < u64::MAX {
            varint_len(elems as u64 + 1)
        } else {
            9
        };
        (stack - 1) as u128 + tail
    };
    if w > u64::MAX as u128 {
        Some(u64::MAX)
    } else {
        Some(w as u64)
    }
}

impl Tr<TapLeaf> {
    /// The largest bound over the leaves, or `None` where no leaf has one.
    fn max_leaf_bound(&self, legacy: bool) -> (r: Option<u64>)
        requires
            self.wf(),
        ensures
            match r {
                Some(m) => exists|w: int|
                    is_max_of(self.leaves(), legacy, w) && m == capped(w, u64::MAX as int),
                None => none_of(self.leaves(), legacy),
            },
    {
        let ghost all = self.leaves();
        let mut it: TapTreeIter<'_, TapLeaf> = self.iter_scripts();
        let mut best: Option<u64> = None;
        let ghost mut best_w: int = 0;
        let ghost mut seen: int = 0;
        loop
            invariant
                it.wf(),
                all == self.leaves(),
                0 <= seen <= all.len(),
                it.remaining() == all.subrange(seen, all.len() as int),
                best is None ==> none_of(all.subrange(0, seen), legacy),
                best matches Some(m) ==> is_max_of(all.subrange(0, seen), legacy, best_w) && m
                    == capped(best_w, u64::MAX as int),
            decreases all.len() - seen,
        {
            let ghost pre = it.remaining();
            match it.next() {
                None => {
                    proof {
                        assert(all.subrange(0, seen) =~= all);
                        if best is Some {
                            assert(is_max_of(all, legacy, best_w));
                        }
                    }
                    return best;
                },
                Some((depth, leaf)) => {
                    let b = leaf_bound(depth, leaf, legacy);
                    proof {
                        assert(pre[0] == all[seen]);
                        assert(it.remaining() =~= all.subrange(seen + 1, all.len() as int));
                    }
                    let ghost prev = all.subrange(0, seen);
                    let ghost next = all.subrange(0, seen + 1);
                    proof {
                        assert forall|i: int| 0 <= i < seen implies #[trigger] next[i] == prev[i] by {}
                        assert(next[seen] == all[seen]);
                    }
                    match b {
                        None => {
                            proof {
                                assert(bound_of(legacy, all[seen].0 as int, all[seen].1) is None);
                                if best is None {
                                    assert forall|i: int| 0 <= i < next.len() implies #[trigger] bound_of(legacy, 
                                        next[i].0 as int,
                                        next[i].1,
                                    ) is None by {
                                        if i < seen {
                                            assert(next[i] == prev[i]);
                                        }
                                    }
                                } else {
                                    let j = choose|j: int| 0 <= j < prev.len() && #[trigger] bound_of(legacy, 
                                        prev[j].0 as int,
                                        prev[j].1,
                                    ) == Some(best_w);
                                    assert(next[j] == prev[j]);
                                    assert forall|i: int| 0 <= i < next.len() implies match #[trigger] bound_of(legacy, 
                                        next[i].0 as int,
                                        next[i].1,
                                    ) {
                                        Some(w) => w <= best_w,
                                        None => true,
                                    } by {
                                        if i < seen {
                                            assert(next[i] == prev[i]);
                                        }
                                    }
                                }
                            }
                        },
                        Some(v) => {
                            let ghost w: int = bound_of(legacy, all[seen].0 as int, all[seen].1)->Some_0;
                            let bigger = match best {
                                None => true,
                                Some(m) => v > m,
                            };
                            proof {
                                if best is Some {
                                    let j = choose|j: int| 0 <= j < prev.len() && #[trigger] bound_of(legacy, 
                                        prev[j].0 as int,
                                        prev[j].1,
                                    ) == Some(best_w);
                                    assert(next[j] == prev[j]);
                                }
                            }
                            if bigger {
                                proof {
                                    if best is Some {
                                        assert(w > best_w);
                                    }
                                    assert forall|i: int| 0 <= i < next.len() implies match #[trigger] bound_of(legacy, 
                                        next[i].0 as int,
                                        next[i].1,
                                    ) {
                                        Some(x) => x <= w,
                                        None => true,
                                    } by {
                                        if i < seen {
                                            assert(next[i] == prev[i]);
                                        }
                                    }
                                    best_w = w;
                                }
                                best = Some(v);
                            } else {
                                proof {
                                    if w > best_w {
                                        best_w = w;
                                    }
                                    assert forall|i: int| 0 <= i < next.len() implies match #[trigger] bound_of(legacy, 
                                        next[i].0 as int,
                                        next[i].1,
                                    ) {
                                        Some(x) => x <= best_w,
                                        None => true,
                                    } by {
                                        if i < seen {
                                            assert(next[i] == prev[i]);
                                        }
                                    }
                                }
                            }
                        },
                    }
                    proof {
                        seen = seen + 1;
                    }
                },
            }
        }
    }

    /// An upper bound on the weight that satisfying this descriptor adds to an
    /// input: the largest of the key-path bound and the bounds of the leaves
    /// that can be satisfied. The key path can always be, so this never fails.
    pub fn max_weight_to_satisfy(&self) -> (r: Result<u64, Error>)
        requires
            self.wf(),
        ensures
            none_of(self.leaves(), false) ==> r == Ok::<u64, Error>(key_spend_weight() as u64),
            !none_of(self.leaves(), false) ==> exists|w: int|
                is_max_of(self.leaves(), false, w) && r == Ok::<u64, Error>(
                    capped(with_key_path(w), u64::MAX as int) as u64,
                ),
    {
        if self.tap_tree().is_none() {
            let item_sig_size: usize = 1 + 65;
            let stack_varint_diff: usize = varint_len(1) - varint_len(0);
            return Ok((stack_varint_diff + item_sig_size) as u64);
        }
        match self.max_leaf_bound(false) {
            Some(m) => {
                if m < 66 {
                    Ok(66)
                } else {
                    Ok(m)
                }
            },
            None => Ok(66),
        }
    }

    /// The older upper bound on a satisfying witness's weight, which counts
    /// the script-sig length and the whole stack prefix: 71 without a tree.
    pub fn max_satisfaction_weight(&self) -> (r: Result<u64, Error>)
        requires
            self.wf(),
        ensures
            self.tree() is None ==> r == Ok::<u64, Error>(71u64),
            self.tree() is Some ==> match r {
                Ok(m) => exists|w: int|
                    is_max_of(self.leaves(), true, w)
                        && m == capped(w, u64::MAX as int),
                Err(e) => e == Error::ImpossibleSatisfaction && none_of(
                    self.leaves(),
                    true,
                ),
            },
    {
        if self.tap_tree().is_none() {
            return Ok(4 + 1 + 1 + 65);
        }
        match self.max_leaf_bound(true) {
            Some(m) => Ok(m),
            None => Err(Error::ImpossibleSatisfaction),
        }
    }
}

} // verus!
