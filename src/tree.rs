//! Building a Merkle tree, appending a leaf, and making and checking
//! inclusion proofs.
use crate::hash::{hash_one, hash_pair, leaf_digest, NodeHash};
use crate::model::{
    climb, first_index, first_index_from, fold_path, layers_from, leaf_hashes, leaf_layer,
    lemma_first_index_found, lemma_layers_shape, next_layer, partner, proof_accepted, proof_of,
    root_of, sibling, siblings_from, top_index_from, tree_of, well_formed, LayerModel, TreeModel,
};
use vstd::prelude::*;

verus! {

/// A tree as layers of hashes: the leaf hashes first, the root layer last.
pub type MerkleTree = Vec<Vec<NodeHash>>;

/// The hashes of a layer as byte sequences.
pub open spec fn layer_view(layer: Seq<NodeHash>) -> LayerModel {
    layer.map_values(|h: NodeHash| h@)
}

/// The layers of a tree as sequences of byte sequences.
pub open spec fn tree_view(tree: Seq<Vec<NodeHash>>) -> TreeModel {
    tree.map_values(|layer: Vec<NodeHash>| layer_view(layer@))
}

/// The leaf values as byte sequences.
pub open spec fn leaves_view(leaves: Seq<&[u8]>) -> Seq<Seq<u8>> {
    leaves.map_values(|v: &[u8]| v@)
}

/// Pushes the layer of leaf hashes, one digest per leaf value, in order.
fn create_first_leaves(tree: &mut MerkleTree, leaves: Vec<&[u8]>)
    ensures
        final(tree)@.len() == old(tree)@.len() + 1,
        tree_view(final(tree)@) == tree_view(old(tree)@).push(leaf_layer(leaves_view(leaves@))),
{
    let mut first_leaves: Vec<NodeHash> = Vec::new();
    let mut i: usize = 0;
    while i < leaves.len()
        invariant
            i <= leaves@.len(),
            layer_view(first_leaves@) == leaf_layer(leaves_view(leaves@)).take(i as int),
        decreases leaves@.len() - i,
    {
        let hash_value = hash_one(leaves[i]);
        let ghost prev = first_leaves@;
        first_leaves.push(hash_value);
        proof {
            assert(hash_value@ == leaf_layer(leaves_view(leaves@))[i as int]);
            assert(layer_view(first_leaves@) =~= layer_view(prev).push(hash_value@));
        }
        i = i + 1;
        assert(layer_view(first_leaves@) =~= leaf_layer(leaves_view(leaves@)).take(i as int));
    }
    assert(leaf_layer(leaves_view(leaves@)).take(i as int) =~= leaf_layer(leaves_view(leaves@)));
    tree.push(first_leaves);
    assert(tree_view(tree@) =~= tree_view(old(tree)@).push(leaf_layer(leaves_view(leaves@))));
}

/// Pushes the layer built from layer `level - 1`: each consecutive pair
/// hashed together, a lone last hash paired with itself.
fn create_next_leaves(tree: &mut MerkleTree, level: usize)
    requires
        1 <= level <= old(tree)@.len(),
    ensures
        final(tree)@.len() == old(tree)@.len() + 1,
        final(tree)@.last()@.len() == (old(tree)@[level - 1]@.len() + 1) / 2,
        tree_view(final(tree)@) == tree_view(old(tree)@).push(
            next_layer(tree_view(old(tree)@)[level - 1]),
        ),
{
    let ghost below = tree_view(tree@)[level - 1];
    let mut next_leaves: Vec<NodeHash> = Vec::new();
    let n = tree[level - 1].len();
    let half: usize = n / 2 + n % 2;
    let mut i: usize = 0;
    while i < half
        invariant
            tree@ == old(tree)@,
            1 <= level <= tree@.len(),
            n == tree@[level - 1]@.len(),
            below == layer_view(tree@[level - 1]@),
            half == (n + 1) / 2,
            i <= half,
            layer_view(next_leaves@) == next_layer(below).take(i as int),
        decreases half - i,
    {
        let l_hash: NodeHash = tree[level - 1][i * 2];
        let r_hash: NodeHash = if i * 2 + 1 < n {
            tree[level - 1][i * 2 + 1]
        } else {
            l_hash
        };
        let parent = hash_pair(&l_hash, &r_hash);
        let ghost prev = next_leaves@;
        next_leaves.push(parent);
        proof {
            assert(below[2 * i] == l_hash@);
            assert(partner(below, i as int) == r_hash@);
            assert(parent@ == next_layer(below)[i as int]);
            assert(layer_view(next_leaves@) =~= layer_view(prev).push(parent@));
        }
        i = i + 1;
        assert(layer_view(next_leaves@) =~= next_layer(below).take(i as int));
    }
    assert(next_layer(below).take(i as int) =~= next_layer(below));
    tree.push(next_leaves);
    assert(tree_view(tree@) =~= tree_view(old(tree)@).push(next_layer(below)));
}

/// Adds layers above a tree of one layer until the top layer has at most one
/// hash.
fn grow_to_root(tree: &mut MerkleTree)
    requires
        old(tree)@.len() == 1,
    ensures
        tree_view(final(tree)@) == layers_from(tree_view(old(tree)@)[0]),
{
    let ghost bottom = tree_view(tree@)[0];
    proof {
        assert(tree_view(tree@).drop_last() + layers_from(bottom) =~= layers_from(bottom));
    }
    while tree[tree.len() - 1].len() > 1
        invariant
            tree@.len() >= 1,
            tree_view(tree@).drop_last() + layers_from(tree_view(tree@).last()) == layers_from(
                bottom,
            ),
        decreases tree@.last()@.len(),
    {
        let ghost before = tree_view(tree@);
        let level = tree.len();
        create_next_leaves(tree, level);
        proof {
            let top = before.last();
            assert(top.len() > 1);
            assert(layers_from(top) == seq![top] + layers_from(next_layer(top)));
            assert(tree_view(tree@).drop_last() =~= before);
            assert(before =~= before.drop_last() + seq![top]);
            assert(tree_view(tree@).drop_last() + layers_from(tree_view(tree@).last())
                =~= before.drop_last() + layers_from(top));
        }
    }
    proof {
        let v = tree_view(tree@);
        assert(layers_from(v.last()) == seq![v.last()]);
        assert(v.drop_last() + seq![v.last()] =~= v);
    }
}

/// Builds the tree over `leaves`: their digests as the bottom layer, then
/// each layer from the one below until a single root remains.
pub fn create_merkle_tree(leaves: Vec<&[u8]>) -> (tree: MerkleTree)
    ensures
        tree_view(tree@) == tree_of(leaves_view(leaves@)),
        well_formed(tree_view(tree@)),
{
    let mut tree: MerkleTree = Vec::new();
    create_first_leaves(&mut tree, leaves);
    grow_to_root(&mut tree);
    proof {
        lemma_layers_shape(leaf_layer(leaves_view(leaves@)));
    }
    tree
}

/// The tree with `value` appended as a new last leaf: the leaf hashes of
/// `tree`, then the digest of `value`, built up again from scratch. `tree`
/// itself is left as it was.
pub fn add_element(tree: &mut MerkleTree, value: &[u8]) -> (new_tree: MerkleTree)
    ensures
        *final(tree) == *old(tree),
        tree_view(new_tree@) == layers_from(
            leaf_hashes(tree_view(old(tree)@)).push(leaf_digest(value@)),
        ),
        well_formed(tree_view(new_tree@)),
{
    let ghost bottom = leaf_hashes(tree_view(tree@));
    let mut first_leaves: Vec<NodeHash> = Vec::new();
    if tree.len() > 0 {
        let mut i: usize = 0;
        while i < tree[0].len()
            invariant
                tree@.len() > 0,
                bottom == layer_view(tree@[0]@),
                i <= tree@[0]@.len(),
                layer_view(first_leaves@) == bottom.take(i as int),
            decreases tree@[0]@.len() - i,
        {
            let ghost prev = first_leaves@;
            first_leaves.push(tree[0][i]);
            assert(layer_view(first_leaves@) =~= layer_view(prev).push(bottom[i as int]));
            i = i + 1;
            assert(bottom.take(i as int) =~= bottom.take(i - 1).push(bottom[i - 1]));
        }
        assert(bottom.take(i as int) =~= bottom);
    } else {
        assert(layer_view(first_leaves@) =~= bottom);
    }
    let ghost kept = first_leaves@;
    first_leaves.push(hash_one(value));
    assert(layer_view(first_leaves@) =~= layer_view(kept).push(leaf_digest(value@)));
    let mut new_tree: MerkleTree = Vec::new();
    new_tree.push(first_leaves);
    grow_to_root(&mut new_tree);
    proof {
        lemma_layers_shape(bottom.push(leaf_digest(value@)));
    }
    new_tree
}

/// Whether two hashes hold the same bytes.
fn same_hash(a: &NodeHash, b: &NodeHash) -> (r: bool)
    ensures
        r == (a@ == b@),
{
    let mut i: usize = 0;
    while i < 32
        invariant
            i <= 32,
            a@.take(i as int) == b@.take(i as int),
        decreases 32 - i,
    {
        if a[i] != b[i] {
            assert(a@[i as int] != b@[i as int]);
            return false;
        }
        assert(a@.take(i + 1) =~= a@.take(i as int).push(a@[i as int]));
        assert(b@.take(i + 1) =~= b@.take(i as int).push(b@[i as int]));
        i = i + 1;
    }
    assert(a@.take(32) =~= a@);
    assert(b@.take(32) =~= b@);
    true
}

/// The position of the first hash in `layer` equal to `value`, if any.
pub fn get_leaf(layer: &[NodeHash], value: &NodeHash) -> (r: Option<usize>)
    ensures
        match r {
            Some(i) => first_index(layer_view(layer@), value@) == Some(i as int),
            None => first_index(layer_view(layer@), value@) is None,
        },
{
    let ghost hashes = layer_view(layer@);
    let mut i: usize = 0;
    while i < layer.len()
        invariant
            i <= layer@.len(),
            hashes == layer_view(layer@),
            first_index(hashes, value@) == first_index_from(hashes, value@, i as int),
        decreases layer@.len() - i,
    {
        if same_hash(&layer[i], value) {
            return Some(i);
        }
        i = i + 1;
    }
    None
}

/// The root hash: the first hash of the top layer, absent for a tree with no
/// leaves.
pub fn get_root(tree: &MerkleTree) -> (r: Option<NodeHash>)
    ensures
        match r {
            Some(h) => root_of(tree_view(tree@)) == Some(h@),
            None => root_of(tree_view(tree@)) is None,
        },
{
    if tree.len() == 0 {
        return None;
    }
    let top = tree.len() - 1;
    if tree[top].len() == 0 {
        None
    } else {
        Some(tree[top][0])
    }
}

/// The inclusion proof of `value`: the sibling of its first leaf position in
/// each layer below the root, bottom first, and the position reached at the
/// root, which is 0. Absent when the digest of `value` is not a leaf hash.
pub fn create_proof(tree: &MerkleTree, value: &[u8]) -> (r: Option<(Vec<NodeHash>, usize)>)
    requires
        well_formed(tree_view(tree@)),
    ensures
        match r {
            Some((proof, index)) => proof_of(tree_view(tree@), value@) == Some(
                (layer_view(proof@), index as int),
            ) && index == 0,
            None => proof_of(tree_view(tree@), value@) is None,
        },
{
    let ghost view = tree_view(tree@);
    if tree.len() == 0 {
        return None;
    }
    let target = hash_one(value);
    let start = match get_leaf(tree[0].as_slice(), &target) {
        Some(i) => i,
        None => return None,
    };
    proof {
        lemma_layers_shape(view[0]);
        lemma_first_index_found(view[0], leaf_digest(value@), 0);
    }
    let mut proof: Vec<NodeHash> = Vec::new();
    let mut index: usize = start;
    let level = tree.len() - 1;
    let mut k: usize = 0;
    while k < level
        invariant
            view == tree_view(tree@),
            view == layers_from(view[0]),
            level == tree@.len() - 1,
            k <= level,
            view.last().len() == 1,
            forall|j: int|
                0 <= j < view.len() - 1 ==> #[trigger] view[j].len() > 1 && view[j + 1]
                    == next_layer(view[j]),
            index < view[k as int].len(),
            layer_view(proof@) + siblings_from(view, k as int, index as int) == siblings_from(
                view,
                0,
                start as int,
            ),
            top_index_from(view, k as int, index as int) == top_index_from(view, 0, start as int),
        decreases level - k,
    {
        let sib: NodeHash = if index % 2 == 0 {
            if index + 1 < tree[k].len() {
                tree[k][index + 1]
            } else {
                tree[k][index]
            }
        } else {
            tree[k][index - 1]
        };
        let ghost prev = proof@;
        proof.push(sib);
        proof {
            assert(sib@ == sibling(view[k as int], index as int));
            assert(layer_view(proof@) =~= layer_view(prev).push(sib@));
            assert(siblings_from(view, k as int, index as int) == seq![sib@] + siblings_from(
                view,
                k + 1,
                index as int / 2,
            ));
            assert(layer_view(proof@) + siblings_from(view, k + 1, index as int / 2) =~= layer_view(prev)
                + siblings_from(view, k as int, index as int));
        }
        index = index / 2;
        k = k + 1;
    }
    Some((proof, index))
}

/// Whether `proof` leads from the digest of `value` to the root of `tree`:
/// starting at the first leaf position of that digest, each sibling is
/// hashed in on its side of the running hash, and the result must equal the
/// root. False for a tree with no root or a value whose digest is not a leaf
/// hash.
pub fn verify_proof(tree: &MerkleTree, proof: Vec<NodeHash>, value: &[u8]) -> (r: bool)
    ensures
        r == proof_accepted(tree_view(tree@), layer_view(proof@), value@),
{
    let ghost path = layer_view(proof@);
    let root = match get_root(tree) {
        Some(h) => h,
        None => return false,
    };
    let mut hash_value = hash_one(value);
    let start = match get_leaf(tree[0].as_slice(), &hash_value) {
        Some(i) => i,
        None => return false,
    };
    let mut index: usize = start;
    let mut j: usize = 0;
    assert(path.skip(0) =~= path);
    while j < proof.len()
        invariant
            path == layer_view(proof@),
            j <= proof@.len(),
            fold_path(hash_value@, index as int, path.skip(j as int)) == fold_path(
                leaf_digest(value@),
                start as int,
                path,
            ),
        decreases proof@.len() - j,
    {
        let ghost before = hash_value@;
        if index % 2 == 0 {
            hash_value = hash_pair(&hash_value, &proof[j]);
        } else {
            hash_value = hash_pair(&proof[j], &hash_value);
        }
        proof {
            assert(path.skip(j as int)[0] == proof@[j as int]@);
            assert(hash_value@ == climb(before, index as int, path.skip(j as int)[0]));
            assert(path.skip(j as int).drop_first() =~= path.skip(j + 1));
        }
        index = index / 2;
        j = j + 1;
    }
    assert(path.skip(j as int).len() == 0);
    same_hash(&root, &hash_value)
}

} // verus!
