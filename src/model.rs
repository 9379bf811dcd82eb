//! The mathematical model of a Merkle tree: layers of hashes as sequences of
//! byte sequences, how each layer is built from the one below, and what an
//! inclusion proof holds.
use crate::hash::{leaf_digest, pair_digest};
use vstd::prelude::*;

verus! {

/// One layer of the tree: its hashes, left to right.
pub type LayerModel = Seq<Seq<u8>>;

/// A whole tree: its layers, from the leaf hashes up to the root.
pub type TreeModel = Seq<Seq<Seq<u8>>>;

/// The bottom layer built from the leaf values: each one's digest, in order.
pub open spec fn leaf_layer(leaves: Seq<Seq<u8>>) -> LayerModel {
    leaves.map_values(|v: Seq<u8>| leaf_digest(v))
}

/// The right partner of the node at `2 * i`: its right neighbour, or the node
/// itself when it stands last in a layer of odd length.
pub open spec fn partner(layer: LayerModel, i: int) -> Seq<u8> {
    if 2 * i + 1 < layer.len() {
        layer[2 * i + 1]
    } else {
        layer[2 * i]
    }
}

/// The layer above `layer`: one parent for each consecutive pair.
pub open spec fn next_layer(layer: LayerModel) -> LayerModel {
    Seq::new(((layer.len() + 1) / 2) as nat, |i: int| pair_digest(layer[2 * i], partner(layer, i)))
}

/// `layer` and every layer above it, up to the first layer of at most one hash.
pub open spec fn layers_from(layer: LayerModel) -> TreeModel
    decreases layer.len(),
{
    if layer.len() <= 1 {
        seq![layer]
    } else {
        seq![layer] + layers_from(next_layer(layer))
    }
}

/// The tree built over the leaf values `leaves`.
pub open spec fn tree_of(leaves: Seq<Seq<u8>>) -> TreeModel {
    layers_from(leaf_layer(leaves))
}

/// The leaf hashes of a tree: its bottom layer, empty when it has no layers.
pub open spec fn leaf_hashes(tree: TreeModel) -> LayerModel {
    if tree.len() == 0 {
        Seq::empty()
    } else {
        tree[0]
    }
}

/// A tree whose layers each follow from the one below: no layers at all, or
/// the layers built up from its bottom layer.
pub open spec fn well_formed(tree: TreeModel) -> bool {
    tree.len() == 0 || tree == layers_from(tree[0])
}

/// The root: the first hash of the top layer, if there is one.
pub open spec fn root_of(tree: TreeModel) -> Option<Seq<u8>> {
    if tree.len() > 0 && tree.last().len() > 0 {
        Some(tree.last()[0])
    } else {
        None
    }
}

/// The position of the first hash equal to `h` at or after position `k`.
pub open spec fn first_index_from(layer: LayerModel, h: Seq<u8>, k: int) -> Option<int>
    decreases layer.len() - k,
{
    if 0 <= k < layer.len() {
        if layer[k] == h {
            Some(k)
        } else {
            first_index_from(layer, h, k + 1)
        }
    } else {
        None
    }
}

/// The position of the first hash equal to `h` in `layer`.
pub open spec fn first_index(layer: LayerModel, h: Seq<u8>) -> Option<int> {
    first_index_from(layer, h, 0)
}

/// The hash paired with the node at position `i`: its left neighbour for an
/// odd `i`; for an even `i` its right neighbour, or the node itself when it
/// has none.
pub open spec fn sibling(layer: LayerModel, i: int) -> Seq<u8> {
    if i % 2 == 0 {
        if i + 1 < layer.len() {
            layer[i + 1]
        } else {
            layer[i]
        }
    } else {
        layer[i - 1]
    }
}

/// The siblings met on the way from position `i` of layer `k` up to the
/// layer below the top, bottom first.
pub open spec fn siblings_from(tree: TreeModel, k: int, i: int) -> Seq<Seq<u8>>
    decreases tree.len() - k,
{
    if 0 <= k && k + 1 < tree.len() {
        seq![sibling(tree[k], i)] + siblings_from(tree, k + 1, i / 2)
    } else {
        Seq::empty()
    }
}

/// The position reached in the top layer from position `i` of layer `k`.
pub open spec fn top_index_from(tree: TreeModel, k: int, i: int) -> int
    decreases tree.len() - k,
{
    if 0 <= k && k + 1 < tree.len() {
        top_index_from(tree, k + 1, i / 2)
    } else {
        i
    }
}

/// The inclusion proof of `value`: the siblings from its first occurrence in
/// the bottom layer up, and the position reached at the top; none when its
/// digest is not in the bottom layer.
pub open spec fn proof_of(tree: TreeModel, value: Seq<u8>) -> Option<(Seq<Seq<u8>>, int)> {
    if tree.len() == 0 {
        None
    } else {
        match first_index(tree[0], leaf_digest(value)) {
            Some(i) => Some((siblings_from(tree, 0, i), top_index_from(tree, 0, i))),
            None => None,
        }
    }
}

/// The hash of the parent of `h` at position `i` and its sibling `s`, each on
/// its own side.
pub open spec fn climb(h: Seq<u8>, i: int, s: Seq<u8>) -> Seq<u8> {
    if i % 2 == 0 {
        pair_digest(h, s)
    } else {
        pair_digest(s, h)
    }
}

/// The hash reached from `h` at position `i` by combining it with each
/// sibling of `path` in turn.
pub open spec fn fold_path(h: Seq<u8>, i: int, path: Seq<Seq<u8>>) -> Seq<u8>
    decreases path.len(),
{
    if path.len() == 0 {
        h
    } else {
        fold_path(climb(h, i, path[0]), i / 2, path.drop_first())
    }
}

/// Whether `proof` leads from the digest of `value`, at its first position in
/// the bottom layer, to the root of `tree`.
pub open spec fn proof_accepted(tree: TreeModel, proof: Seq<Seq<u8>>, value: Seq<u8>) -> bool {
    match root_of(tree) {
        Some(root) => match first_index(tree[0], leaf_digest(value)) {
            Some(i) => fold_path(leaf_digest(value), i, proof) == root,
            None => false,
        },
        None => false,
    }
}

/// The layers built from `layer` start with it, each one above is built from
/// the one below, every layer below the top has two hashes or more, and the
/// top has exactly one hash unless `layer` is empty.
pub proof fn lemma_layers_shape(layer: LayerModel)
    ensures
        layers_from(layer).len() >= 1,
        layers_from(layer)[0] == layer,
        well_formed(layers_from(layer)),
        layers_from(layer).last().len() <= 1,
        layer.len() >= 1 ==> layers_from(layer).last().len() == 1,
        layer.len() == 0 ==> layers_from(layer).len() == 1,
        forall|k: int|
            0 <= k < layers_from(layer).len() - 1 ==> #[trigger] layers_from(layer)[k].len() > 1
                && layers_from(layer)[k + 1] == next_layer(layers_from(layer)[k]),
    decreases layer.len(),
{
    let all = layers_from(layer);
    if layer.len() > 1 {
        let rest = layers_from(next_layer(layer));
        lemma_layers_shape(next_layer(layer));
        assert forall|k: int| 0 <= k < all.len() - 1 implies #[trigger] all[k].len() > 1
            && all[k + 1] == next_layer(all[k]) by {
            if k > 0 {
                assert(all[k] == rest[k - 1]);
                assert(all[k + 1] == rest[k]);
            }
        }
        assert(all.last() == rest.last());
    }
}

/// What the search for `h` from position `k` finds: the first position at or
/// after `k` that holds `h`, or none when no such position holds it.
pub proof fn lemma_first_index_found(layer: LayerModel, h: Seq<u8>, k: int)
    requires
        0 <= k,
    ensures
        match first_index_from(layer, h, k) {
            Some(i) => k <= i < layer.len() && layer[i] == h && forall|j: int|
                k <= j < i ==> layer[j] != h,
            None => forall|j: int| k <= j < layer.len() ==> layer[j] != h,
        },
    decreases layer.len() - k,
{
    if k < layer.len() && layer[k] != h {
        lemma_first_index_found(layer, h, k + 1);
    }
}

} // verus!
