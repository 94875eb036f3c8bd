//! The commitment data needed to spend a descriptor: output key, Merkle root
//! and each leaf's control block, derived through the `bitcoin` crate.
use crate::descriptor::Tr;
use crate::leaf::TapLeaf;
use crate::tree::{lemma_leaves_depth_bound, tree_height, tree_leaves, TapTree, TapTreeIter};
use crate::weight::{CONTROL_BASE_SIZE, CONTROL_NODE_SIZE};
use bitcoin::key::XOnlyPublicKey;
use bitcoin::taproot::{LeafVersion, TaprootBuilder, TaprootSpendInfo};
use bitcoin::{Address, Network, ScriptBuf};
use vstd::prelude::*;

verus! {

#[verifier::external_type_specification]
#[verifier::external_body]
pub struct ExXOnlyPublicKey(XOnlyPublicKey);

#[verifier::external_type_specification]
#[verifier::external_body]
pub struct ExTaprootBuilder(TaprootBuilder);

#[verifier::external_type_specification]
#[verifier::external_body]
pub struct ExTaprootSpendInfo(TaprootSpendInfo);

/// The address that pays to the serialized output key `key` on the network
/// with code `net` (0 main, 1 test, 2 signet, 3 regtest).
pub uninterp spec fn p2tr_address_of(key: Seq<u8>, net: u8) -> Seq<char>;

/// Relies on the `Clone` impl of `TaprootSpendInfo`, derived: an equal value.
pub assume_specification[ <TaprootSpendInfo as Clone>::clone ](info: &TaprootSpendInfo) -> (r: TaprootSpendInfo)
    ensures
        r == *info,
;

/// Whether `XOnlyPublicKey::from_str` accepts the text: 64 hex digits that
/// encode a point of the curve.
pub uninterp spec fn x_only_ok(key: Seq<char>) -> bool;

/// The output key that tweaking the key written `key` with the tree whose
/// depth-first leaves are `leaves` gives (no script path where `leaves` is
/// empty).
pub uninterp spec fn tap_output_key(key: Seq<char>, leaves: Seq<(nat, Seq<u8>)>) -> Seq<u8>;

/// The Merkle root of the tree whose depth-first leaves are `leaves`.
pub uninterp spec fn tap_merkle_root(leaves: Seq<(nat, Seq<u8>)>) -> Seq<u8>;

/// The control block of `script` in the commitment of the key written `key`
/// to the tree whose depth-first leaves are `leaves`.
pub uninterp spec fn tap_control_block(key: Seq<char>, leaves: Seq<(nat, Seq<u8>)>, script: Seq<u8>) -> Seq<u8>;

/// The depths of a list of leaves.
pub open spec fn depths_of<L>(ls: Seq<(nat, L)>) -> Seq<nat> {
    Seq::new(ls.len(), |i: int| ls[i].0)
}

/// `ds` starts the depth-first leaf depths of some tree at most 128 high.
pub open spec fn dfs_prefix(ds: Seq<nat>) -> bool {
    exists|t: TapTree<TapLeaf>|
        #[trigger] t.wf() && tree_height(t) <= 128 && ds.len() <= tree_leaves(t).len() && ds
            == depths_of(tree_leaves(t)).take(ds.len() as int)
}

/// `ds` is empty, or the depth-first leaf depths of a tree at most 128 high.
pub open spec fn dfs_complete(ds: Seq<nat>) -> bool {
    ds.len() == 0 || exists|t: TapTree<TapLeaf>|
        #[trigger] t.wf() && tree_height(t) <= 128 && ds == depths_of(tree_leaves(t))
}

/// A Taproot builder, with the leaves added to it so far in the order they
/// were added; only this module makes one.
pub struct LeafBuilder {
    inner: TaprootBuilder,
    added: Ghost<Seq<(nat, Seq<u8>)>>,
}

impl LeafBuilder {
    /// The leaves added so far, with their depths and scripts.
    pub closed spec fn added(&self) -> Seq<(nat, Seq<u8>)> {
        self.added@
    }
}

/// A Taproot commitment, with the key text and the depth-first leaves it
/// was made from; only this module makes one.
pub struct Commitment {
    inner: TaprootSpendInfo,
    key: Ghost<Seq<char>>,
    leaves: Ghost<Seq<(nat, Seq<u8>)>>,
}

impl Commitment {
    /// The text of the internal key the commitment was made from.
    pub closed spec fn key(&self) -> Seq<char> {
        self.key@
    }

    /// The depth-first leaves the commitment was made from.
    pub closed spec fn leaves(&self) -> Seq<(nat, Seq<u8>)> {
        self.leaves@
    }

    /// A copy of this commitment.
    pub fn copy(&self) -> (r: Commitment)
        ensures
            r.key() == self.key(),
            r.leaves() == self.leaves(),
    {
        Commitment { inner: self.inner.clone(), key: Ghost(self.key@), leaves: Ghost(self.leaves@) }
    }
}

/// Relies on `Address::p2tr_tweaked` and its `Display`: the address that pays
/// to the output key of `c` on the network with code `net`.
#[verifier::external_body]
fn p2tr_address(c: &Commitment, net: u8) -> (r: String)
    requires
        net <= 3,
    ensures
        r@ == p2tr_address_of(tap_output_key(c.key(), c.leaves()), net),
{
    let network = match net {
        0 => Network::Bitcoin,
        1 => Network::Testnet,
        2 => Network::Signet,
        _ => Network::Regtest,
    };
    Address::p2tr_tweaked(c.inner.output_key(), network).to_string()
}

/// Relies on `XOnlyPublicKey::from_str`: reads a key from 64 hex digits.
#[verifier::external_body]
fn parse_x_only(key: &str) -> (r: Option<XOnlyPublicKey>)
    ensures
        r is Some <==> x_only_ok(key@),
{
    key.parse::<XOnlyPublicKey>().ok()
}

/// Relies on `TaprootBuilder::new`: a builder with no leaves.
#[verifier::external_body]
fn new_builder() -> (r: LeafBuilder)
    ensures
        r.added() == Seq::<(nat, Seq<u8>)>::empty(),
{
    LeafBuilder { inner: TaprootBuilder::new(), added: Ghost(Seq::empty()) }
}

/// Relies on `TaprootBuilder::add_leaf`: adds a script leaf at `depth` under
/// the default leaf version; it succeeds while the depths added, this one
/// included, start the depth-first leaf depths of a tree at most 128 high.
#[verifier::external_body]
fn add_leaf(builder: LeafBuilder, depth: u8, script: &Vec<u8>) -> (r: Option<LeafBuilder>)
    ensures
        r matches Some(b) ==> b.added() == builder.added().push((depth as nat, script@)),
        dfs_prefix(depths_of(builder.added().push((depth as nat, script@)))) ==> r is Some,
{
    let added = Ghost(builder.added@.push((depth as nat, script@)));
    let inner = builder.inner.add_leaf(depth, ScriptBuf::from_bytes(script.clone())).ok()?;
    Some(LeafBuilder { inner, added })
}

/// Relies on `TaprootBuilder::finalize`, with the key read by
/// `XOnlyPublicKey::from_str`: tweaks the key with the tree's Merkle root (no
/// script path without leaves); it succeeds where the key reads and the
/// leaves added form a complete tree.
#[verifier::external_body]
fn finalize(builder: LeafBuilder, key: &str) -> (r: Option<Commitment>)
    ensures
        r matches Some(c) ==> c.key() == key@ && c.leaves() == builder.added(),
        x_only_ok(key@) && dfs_complete(depths_of(builder.added())) ==> r is Some,
{
    let secp = bitcoin::secp256k1::Secp256k1::verification_only();
    let k = key.parse::<XOnlyPublicKey>().ok()?;
    let inner = builder.inner.finalize(&secp, k).ok()?;
    Some(Commitment { inner, key: Ghost(key@), leaves: builder.added })
}

/// Relies on `TaprootSpendInfo::output_key`: the tweaked key, 32 bytes once
/// serialized.
#[verifier::external_body]
fn output_key_bytes(c: &Commitment) -> (r: Vec<u8>)
    ensures
        r@.len() == 32,
        r@ == tap_output_key(c.key(), c.leaves()),
{
    c.inner.output_key().serialize().to_vec()
}

/// Relies on `TaprootSpendInfo::merkle_root`: the 32-byte root of the tree,
/// present exactly where the commitment was made with leaves.
#[verifier::external_body]
fn merkle_root_bytes(c: &Commitment) -> (r: Option<Vec<u8>>)
    ensures
        r matches Some(v) ==> v@ == tap_merkle_root(c.leaves()) && v@.len() == 32,
        r is Some <==> c.leaves().len() > 0,
{
    c.inner.merkle_root().map(|h| bitcoin::hashes::Hash::to_byte_array(h).to_vec())
}

/// `script` stands at leaf `i` of `ls` and at no other.
pub open spec fn only_at(ls: Seq<(nat, Seq<u8>)>, script: Seq<u8>, i: int) -> bool {
    &&& 0 <= i < ls.len()
    &&& ls[i].1 == script
    &&& forall|j: int| 0 <= j < ls.len() && j != i ==> (#[trigger] ls[j]).1 != script
}

/// Some leaf of `ls` has the script `script`.
pub open spec fn has_script(ls: Seq<(nat, Seq<u8>)>, script: Seq<u8>) -> bool {
    exists|i: int| 0 <= i < ls.len() && #[trigger] ls[i].1 == script
}

/// `r` is a control block for a leaf at `depth`.
pub open spec fn exact_block(r: Option<Vec<u8>>, depth: nat) -> bool {
    r matches Some(v) && v@.len() == CONTROL_BASE_SIZE + depth * CONTROL_NODE_SIZE
}

/// Relies on `TaprootSpendInfo::control_block` and `ControlBlock::serialize`:
/// the shortest control block of a script under the default leaf version, a
/// 33-byte head and one 32-byte hash for each level above its leaf; there is
/// one for each script of the commitment's leaves.
#[verifier::external_body]
fn control_block_bytes(c: &Commitment, script: &Vec<u8>) -> (r: Option<Vec<u8>>)
    ensures
        r matches Some(v) ==> control_block_len_ok(v@.len() as int) && v@ == tap_control_block(
            c.key(),
            c.leaves(),
            script@,
        ),
        r is None ==> !has_script(c.leaves(), script@),
        forall|i: int| #[trigger] only_at(c.leaves(), script@, i) ==> exact_block(r, c.leaves()[i].0),
{
    c.inner.control_block(&(ScriptBuf::from_bytes(script.clone()), LeafVersion::TapScript)).map(
        |c| c.serialize(),
    )
}

/// `n` is the length of a control block: a 33-byte head and at most 128
/// hashes of 32 bytes.
pub open spec fn control_block_len_ok(n: int) -> bool {
    &&& CONTROL_BASE_SIZE <= n <= CONTROL_BASE_SIZE + 128 * CONTROL_NODE_SIZE
    &&& (n - CONTROL_BASE_SIZE) % (CONTROL_NODE_SIZE as int) == 0
}

/// The depths and scripts of a list of leaves.
pub open spec fn scripts_of(ls: Seq<(nat, TapLeaf)>) -> Seq<(nat, Seq<u8>)> {
    Seq::new(ls.len(), |i: int| (ls[i].0, ls[i].1.script@))
}

/// What holds of the spend data of a descriptor with internal key `key` and
/// leaves `leaves`.
pub open spec fn spend_info_fits(info: SpendInfo, key: Seq<char>, leaves: Seq<(nat, TapLeaf)>) -> bool {
    fits_scripts(info, key, scripts_of(leaves))
}

/// What holds of the spend data of a descriptor with internal key `key` and
/// leaves of depths and scripts `sc`: the output key is the key tweaked with
/// those leaves, the Merkle root is there exactly where there are leaves, and
/// each leaf whose script no other leaf shares has a control block with one
/// hash per level above it.
pub open spec fn fits_scripts(info: SpendInfo, key: Seq<char>, sc: Seq<(nat, Seq<u8>)>) -> bool {
    &&& info.commitment.key() == key
    &&& info.commitment.leaves() == sc
    &&& info.output_key@.len() == 32
    &&& info.output_key@ == tap_output_key(key, sc)
    &&& info.merkle_root is Some <==> sc.len() > 0
    &&& info.merkle_root matches Some(m) ==> m@.len() == 32 && m@ == tap_merkle_root(sc)
    &&& info.control_blocks@.len() == sc.len()
    &&& forall|i: int|
        0 <= i < info.control_blocks@.len() ==> #[trigger] info.control_blocks@[i]@
            == tap_control_block(key, sc, sc[i].1)
    &&& forall|i: int|
        0 <= i < info.control_blocks@.len() ==> control_block_len_ok(
            #[trigger] info.control_blocks@[i]@.len() as int,
        )
    &&& forall|i: int|
        #[trigger] only_at(sc, sc[i].1, i) ==> info.control_blocks@[i]@.len() == CONTROL_BASE_SIZE
            + sc[i].0 * CONTROL_NODE_SIZE
}

/// What spending a descriptor needs beyond the witness of a leaf.
pub struct SpendInfo {
    /// The serialized output key.
    pub output_key: Vec<u8>,
    /// The Merkle root of the tree, if there is one.
    pub merkle_root: Option<Vec<u8>>,
    /// The control block of each leaf, in depth-first order.
    pub control_blocks: Vec<Vec<u8>>,
    /// The commitment these values were read from.
    pub commitment: Commitment,
}

/// The output script paying to a Taproot output key: `OP_1`, then a push of
/// the 32-byte key.
pub open spec fn p2tr_script(key: Seq<u8>) -> Seq<u8> {
    seq![0x51u8, 0x20u8] + key
}

/// A copy of a list of byte strings.
fn copy_list(v: &Vec<Vec<u8>>) -> (r: Vec<Vec<u8>>)
    ensures
        r@.len() == v@.len(),
        forall|i: int| 0 <= i < v@.len() ==> (#[trigger] r@[i])@ == v@[i]@,
{
    let mut r: Vec<Vec<u8>> = Vec::new();
    let mut i: usize = 0;
    while i < v.len()
        invariant
            i <= v@.len(),
            r@.len() == i,
            forall|j: int| 0 <= j < i ==> (#[trigger] r@[j])@ == v@[j]@,
        decreases v@.len() - i,
    {
        r.push(copy_bytes(&v[i]));
        i = i + 1;
    }
    r
}

/// A copy of a byte string.
pub(crate) fn copy_bytes(v: &Vec<u8>) -> (r: Vec<u8>)
    ensures
        r@ == v@,
{
    let r = v.clone();
    proof {
        assert(r@ =~= v@);
    }
    r
}

impl SpendInfo {
    /// A copy of this spend data.
    pub fn copy(&self) -> (r: SpendInfo)
        ensures
            r.output_key@ == self.output_key@,
            r.merkle_root is Some <==> self.merkle_root is Some,
            r.merkle_root matches Some(m) ==> m@ == self.merkle_root->Some_0@,
            r.control_blocks@.len() == self.control_blocks@.len(),
            forall|i: int|
                0 <= i < self.control_blocks@.len() ==> (#[trigger] r.control_blocks@[i])@
                    == self.control_blocks@[i]@,
            r.commitment.key() == self.commitment.key(),
            r.commitment.leaves() == self.commitment.leaves(),
    {
        SpendInfo {
            output_key: copy_bytes(&self.output_key),
            merkle_root: match &self.merkle_root {
                Some(m) => Some(copy_bytes(m)),
                None => None,
            },
            control_blocks: copy_list(&self.control_blocks),
            commitment: self.commitment.copy(),
        }
    }

    /// The address paying to this output key on the network with code `net`
    /// (0 main, 1 test, 2 signet, 3 regtest).
    pub fn address(&self, net: u8) -> (r: String)
        requires
            net <= 3,
        ensures
            self.output_key@ == tap_output_key(self.commitment.key(), self.commitment.leaves())
                ==> r@ == p2tr_address_of(self.output_key@, net),
    {
        p2tr_address(&self.commitment, net)
    }

    /// The output script of this spend data.
    pub fn script_pubkey(&self) -> (r: Vec<u8>)
        ensures
            r@ == p2tr_script(self.output_key@),
    {
        let mut r: Vec<u8> = Vec::new();
        r.push(0x51u8);
        r.push(0x20u8);
        let mut i: usize = 0;
        while i < self.output_key.len()
            invariant
                i <= self.output_key@.len(),
                r@ == seq![0x51u8, 0x20u8] + self.output_key@.subrange(0, i as int),
            decreases self.output_key@.len() - i,
        {
            r.push(self.output_key[i]);
            i = i + 1;
            proof {
                assert(r@ =~= seq![0x51u8, 0x20u8] + self.output_key@.subrange(0, i as int));
            }
        }
        proof {
            assert(self.output_key@.subrange(0, i as int) =~= self.output_key@);
        }
        r
    }
}

impl Tr<TapLeaf> {
    /// The spend data of this descriptor, a function of its key and leaves;
    /// `None` exactly where the internal key is not an x-only key in 64 hex
    /// digits.
    pub fn spend_info(&self) -> (r: Option<SpendInfo>)
        requires
            self.wf(),
        ensures
            r is Some <==> x_only_ok(self.key()),
            r matches Some(info) ==> spend_info_fits(info, self.key(), self.leaves()),
            r matches Some(info) ==> (info.merkle_root is None <==> self.tree() is None),
    {
        if parse_x_only(self.internal_key().as_str()).is_none() {
            return None;
        }
        let ghost all = self.leaves();
        let ghost sc = scripts_of(all);
        proof {
            if let Some(t) = self.tree() {
                lemma_leaves_depth_bound(&t, 0);
            }
        }
        let mut builder = new_builder();
        let mut it: TapTreeIter<'_, TapLeaf> = self.iter_scripts();
        let ghost mut seen: int = 0;
        loop
            invariant
                it.wf(),
                all == self.leaves(),
                sc == scripts_of(all),
                self.wf(),
                0 <= seen <= all.len(),
                it.remaining() == all.subrange(seen, all.len() as int),
                builder.added() == sc.take(seen),
            ensures
                builder.added() == sc,
            decreases all.len() - seen,
        {
            let ghost pre = it.remaining();
            match it.next() {
                None => {
                    proof {
                        assert(sc.take(seen) =~= sc);
                    }
                    break;
                },
                Some((depth, leaf)) => {
                    proof {
                        assert(pre[0] == all[seen]);
                        assert(it.remaining() =~= all.subrange(seen + 1, all.len() as int));
                        assert(sc.take(seen).push((depth as nat, leaf.script@)) =~= sc.take(seen + 1));
                        let t = self.tree()->Some_0;
                        assert(all == tree_leaves(t));
                        assert(depths_of(sc.take(seen + 1)) =~= depths_of(tree_leaves(t)).take(seen + 1));
                        assert(t.wf() && tree_height(t) <= 128 && depths_of(sc.take(seen + 1)).len()
                            <= tree_leaves(t).len());
                        assert(dfs_prefix(depths_of(sc.take(seen + 1))));
                    }
                    builder = match add_leaf(builder, depth, &leaf.script) {
                        Some(b) => b,
                        None => return None,
                    };
                    proof {
                        seen = seen + 1;
                    }
                },
            }
        }
        proof {
            if let Some(t) = self.tree() {
                assert(depths_of(sc) =~= depths_of(tree_leaves(t)));
                assert(t.wf() && tree_height(t) <= 128 && depths_of(sc) == depths_of(tree_leaves(t)));
            } else {
                assert(depths_of(sc).len() == 0);
            }
            assert(dfs_complete(depths_of(sc)));
        }
        let info = match finalize(builder, self.internal_key().as_str()) {
            Some(info) => info,
            None => return None,
        };
        let mut control_blocks: Vec<Vec<u8>> = Vec::new();
        let mut it: TapTreeIter<'_, TapLeaf> = self.iter_scripts();
        let ghost mut seen: int = 0;
        loop
            invariant
                it.wf(),
                all == self.leaves(),
                sc == scripts_of(all),
                info.leaves() == sc,
                info.key() == self.key(),
                0 <= seen <= all.len(),
                it.remaining() == all.subrange(seen, all.len() as int),
                control_blocks@.len() == seen,
                forall|i: int|
                    0 <= i < control_blocks@.len() ==> #[trigger] control_blocks@[i]@
                        == tap_control_block(self.key(), sc, sc[i].1),
                forall|i: int|
                    0 <= i < control_blocks@.len() ==> control_block_len_ok(
                        #[trigger] control_blocks@[i]@.len() as int,
                    ),
                forall|i: int|
                    0 <= i < seen && #[trigger] only_at(sc, all[i].1.script@, i) ==> control_blocks@[i]@.len()
                        == CONTROL_BASE_SIZE + all[i].0 * CONTROL_NODE_SIZE,
            ensures
                control_blocks@.len() == all.len(),
                forall|i: int|
                    0 <= i < control_blocks@.len() ==> #[trigger] control_blocks@[i]@
                        == tap_control_block(self.key(), sc, sc[i].1),
                forall|i: int|
                    0 <= i < control_blocks@.len() ==> control_block_len_ok(
                        #[trigger] control_blocks@[i]@.len() as int,
                    ),
                forall|i: int|
                    #[trigger] only_at(sc, all[i].1.script@, i) ==> control_blocks@[i]@.len()
                        == CONTROL_BASE_SIZE + all[i].0 * CONTROL_NODE_SIZE,
            decreases all.len() - seen,
        {
            let ghost pre = it.remaining();
            match it.next() {
                None => break,
                Some((_depth, leaf)) => {
                    proof {
                        assert(pre[0] == all[seen]);
                        assert(it.remaining() =~= all.subrange(seen + 1, all.len() as int));
                        assert(sc[seen].1 == leaf.script@);
                    }
                    let ghost before = control_blocks@;
                    match control_block_bytes(&info, &leaf.script) {
                        Some(cb) => {
                            control_blocks.push(cb);
                            proof {
                                assert(control_blocks@[seen] == cb);
                                assert forall|i: int| 0 <= i < control_blocks@.len() implies #[trigger] control_blocks@[i]@
                                    == tap_control_block(self.key(), sc, sc[i].1) by {
                                    if i < seen {
                                        assert(control_blocks@[i] == before[i]);
                                    }
                                }
                                assert forall|i: int| 0 <= i < seen + 1 && #[trigger] only_at(sc, all[i].1.script@, i)
                                    implies control_blocks@[i]@.len() == CONTROL_BASE_SIZE + all[i].0 * CONTROL_NODE_SIZE by {
                                    if i < seen {
                                        assert(control_blocks@[i] == before[i]);
                                    }
                                }
                            }
                        },
                        None => return None,
                    }
                    proof {
                        seen = seen + 1;
                    }
                },
            }
        }
        let r = SpendInfo {
            output_key: output_key_bytes(&info),
            merkle_root: merkle_root_bytes(&info),
            control_blocks,
            commitment: info,
        };
        proof {
            assert(spend_info_fits(r, self.key(), self.leaves()));
        }
        Some(r)
    }
}

} // verus!
