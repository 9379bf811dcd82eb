//! Properties of trees and proofs that hold for every leaf sequence.
use crate::hash::{leaf_digest, pair_digest};
use crate::model::{
    climb, first_index, fold_path, layers_from, leaf_hashes, leaf_layer, lemma_first_index_found,
    lemma_layers_shape, next_layer, partner, proof_accepted, proof_of, root_of, sibling,
    siblings_from, tree_of, LayerModel, TreeModel,
};
use vstd::arithmetic::power2::{lemma2_to64, lemma_pow2_unfold, pow2};
use vstd::prelude::*;

verus! {

/// Layers built from a non-empty layer of `n` hashes number `k + 1`, where
/// `k` is the least exponent with `2^k >= n`, and the top one holds one hash.
proof fn lemma_height(layer: LayerModel)
    requires
        layer.len() >= 1,
    ensures
        layers_from(layer).last().len() == 1,
        pow2((layers_from(layer).len() - 1) as nat) >= layer.len(),
        layers_from(layer).len() == 1 || pow2((layers_from(layer).len() - 2) as nat)
            < layer.len(),
    decreases layer.len(),
{
    lemma_layers_shape(layer);
    if layer.len() > 1 {
        let nx = next_layer(layer);
        let rest = layers_from(nx);
        lemma_height(nx);
        assert(layers_from(layer) == seq![layer] + rest);
        let k = (rest.len() - 1) as nat;
        lemma_pow2_unfold(k + 1);
        lemma2_to64();
        if k > 0 {
            lemma_pow2_unfold(k);
        }
    } else {
        lemma2_to64();
    }
}

/// A tree over one leaf or more has `ceil(log2(n)) + 1` layers for `n`
/// leaves, that is `k + 1` for the least `k` with `2^k >= n`, and its top
/// layer holds exactly one hash, the root.
pub proof fn lemma_layer_count(leaves: Seq<Seq<u8>>)
    requires
        leaves.len() >= 1,
    ensures
        tree_of(leaves).last().len() == 1,
        pow2((tree_of(leaves).len() - 1) as nat) >= leaves.len(),
        tree_of(leaves).len() == 1 || pow2((tree_of(leaves).len() - 2) as nat) < leaves.len(),
{
    lemma_height(leaf_layer(leaves));
}

/// The tree over no leaves has no root.
pub proof fn lemma_empty_tree_has_no_root()
    ensures
        root_of(tree_of(Seq::empty())) is None,
{
    lemma_layers_shape(leaf_layer(Seq::empty()));
}

/// Folding the siblings met from position `i` of layer `k` into the hash
/// there gives the root.
proof fn lemma_fold_reaches_root(tree: TreeModel, k: int, i: int)
    requires
        tree.len() >= 1,
        tree.last().len() == 1,
        forall|j: int| 0 <= j < tree.len() - 1 ==> #[trigger] tree[j + 1] == next_layer(tree[j]),
        0 <= k < tree.len(),
        0 <= i < tree[k].len(),
    ensures
        fold_path(tree[k][i], i, siblings_from(tree, k, i)) == tree.last()[0],
    decreases tree.len() - k,
{
    if k + 1 < tree.len() {
        let layer = tree[k];
        let s = sibling(layer, i);
        let rest = siblings_from(tree, k + 1, i / 2);
        assert(tree[k + 1] == next_layer(layer));
        assert(siblings_from(tree, k, i) == seq![s] + rest);
        assert((seq![s] + rest).drop_first() =~= rest);
        assert((seq![s] + rest)[0] == s);
        assert(climb(layer[i], i, s) == pair_digest(layer[2 * (i / 2)], partner(layer, i / 2)));
        lemma_fold_reaches_root(tree, k + 1, i / 2);
    }
}

/// For every value among the leaves, the proof made for it exists and is
/// accepted against the tree it was made from.
pub proof fn lemma_proof_of_member_verifies(leaves: Seq<Seq<u8>>, value: Seq<u8>)
    requires
        leaves.contains(value),
    ensures
        match proof_of(tree_of(leaves), value) {
            Some(p) => proof_accepted(tree_of(leaves), p.0, value),
            None => false,
        },
{
    let tree = tree_of(leaves);
    let bottom = leaf_layer(leaves);
    let h = leaf_digest(value);
    lemma_layers_shape(bottom);
    lemma_height(bottom);
    let w = choose|w: int| 0 <= w < leaves.len() && leaves[w] == value;
    assert(bottom[w] == h);
    lemma_first_index_found(bottom, h, 0);
    let i = first_index(bottom, h)->Some_0;
    assert forall|j: int| 0 <= j < tree.len() - 1 implies #[trigger] tree[j + 1] == next_layer(
        tree[j],
    ) by {
        assert(tree[j].len() > 1);
    }
    lemma_fold_reaches_root(tree, 0, i);
}

/// A value whose digest is none of the leaves' digests (so in particular one
/// not among the leaves) has no proof.
pub proof fn lemma_absent_value_has_no_proof(leaves: Seq<Seq<u8>>, value: Seq<u8>)
    requires
        !leaves.contains(value),
        forall|j: int| 0 <= j < leaves.len() ==> leaf_digest(#[trigger] leaves[j]) != leaf_digest(
            value,
        ),
    ensures
        proof_of(tree_of(leaves), value) is None,
{
    let bottom = leaf_layer(leaves);
    lemma_layers_shape(bottom);
    lemma_first_index_found(bottom, leaf_digest(value), 0);
    if first_index(bottom, leaf_digest(value)) is Some {
        let i = first_index(bottom, leaf_digest(value))->Some_0;
        assert(bottom[i] == leaf_digest(leaves[i]));
    }
}

/// Appending a value to a tree and building again from its leaf hashes gives
/// the tree built over the extended leaf sequence, and so the same root.
pub proof fn lemma_append_matches_rebuild(leaves: Seq<Seq<u8>>, value: Seq<u8>)
    ensures
        layers_from(leaf_hashes(tree_of(leaves)).push(leaf_digest(value))) == tree_of(
            leaves.push(value),
        ),
        root_of(layers_from(leaf_hashes(tree_of(leaves)).push(leaf_digest(value)))) == root_of(
            tree_of(leaves.push(value)),
        ),
{
    lemma_layers_shape(leaf_layer(leaves));
    assert(leaf_layer(leaves).push(leaf_digest(value)) =~= leaf_layer(leaves.push(value)));
}

/// In a layer of odd length below the root, the last hash is paired with
/// itself: the last hash of the layer above is the pair digest of that hash
/// with itself.
pub proof fn lemma_odd_layer_pairs_last_with_itself(leaves: Seq<Seq<u8>>, k: int)
    requires
        0 <= k < tree_of(leaves).len() - 1,
        tree_of(leaves)[k].len() % 2 == 1,
    ensures
        tree_of(leaves)[k + 1].last() == pair_digest(
            tree_of(leaves)[k].last(),
            tree_of(leaves)[k].last(),
        ),
{
    let tree = tree_of(leaves);
    lemma_layers_shape(leaf_layer(leaves));
    assert(tree[k].len() > 1);
    let layer = tree[k];
    let m = (layer.len() - 1) / 2;
    assert(tree[k + 1] == next_layer(layer));
    assert(2 * m == layer.len() - 1);
    assert(next_layer(layer).last() == pair_digest(layer[2 * m], partner(layer, m)));
}

} // verus!
