use crate::errors::VoteError;
use crate::field::{values, Fp};
use crate::hash::{cmx_hash, cmx_hash_of, empty_hash, empty_hash_at};
use crate::prevhash::{lemma_all_vacant, position_from, PreviousHashes, DEPTH};
use vstd::arithmetic::power2::{lemma2_to64, lemma_pow2_unfold, pow2};
use vstd::prelude::*;

verus! {

/// `x` halved `k` times, rounding down: the index at layer `k` of the node
/// above leaf `x`.
pub open spec fn shr(x: nat, k: nat) -> nat
    decreases k,
{
    if k == 0 {
        x
    } else {
        shr(x, (k - 1) as nat) / 2
    }
}

/// `x` halved `k` times, rounding up: the number of nodes at layer `k` that
/// stand above the first `x` leaves.
pub open spec fn ceil_shr(x: nat, k: nat) -> nat
    decreases k,
{
    if k == 0 {
        x
    } else {
        (ceil_shr(x, (k - 1) as nat) + 1) / 2
    }
}

/// The index of the other child of a node's parent.
pub open spec fn sibling(index: nat) -> nat {
    if index % 2 == 0 {
        index + 1
    } else {
        (index - 1) as nat
    }
}

/// The node at `index` of layer `level` in the tree whose leaves left of the
/// slice are known through the frontier `lefts`, whose next leaves are
/// `leaves`, and whose remaining leaves are empty.
///
/// At each layer the frontier stands for the nodes left of the slice; the only
/// one of them that the tree above the slice reaches is the frontier's node of
/// that layer.
pub open spec fn node(lefts: Seq<Option<nat>>, leaves: Seq<nat>, level: nat, index: nat) -> nat
    decreases level,
{
    if index < position_from(lefts, level) {
        match lefts[level as int] {
            Some(h) => h,
            None => 0,
        }
    } else if level == 0 {
        let at = index - position_from(lefts, 0);
        if at < leaves.len() {
            leaves[at]
        } else {
            empty_hash(0)
        }
    } else {
        cmx_hash_of(
            (level - 1) as u8,
            node(lefts, leaves, (level - 1) as nat, 2 * index),
            node(lefts, leaves, (level - 1) as nat, 2 * index + 1),
        )
    }
}

/// The root of the tree of depth 32 over a frontier and a slice of leaves.
pub open spec fn tree_root(lefts: Seq<Option<nat>>, leaves: Seq<nat>) -> nat {
    node(lefts, leaves, 32, 0)
}

/// The node reached from `leaf` at `position` after hashing it with the first
/// `height` siblings of `path`, each on the side that the position tells.
pub open spec fn climb(leaf: nat, position: nat, path: Seq<nat>, height: nat) -> nat
    decreases height,
{
    if height == 0 {
        leaf
    } else {
        let level = (height - 1) as nat;
        let below = climb(leaf, position, path, level);
        if shr(position, level) % 2 == 0 {
            cmx_hash_of(level as u8, below, path[level as int])
        } else {
            cmx_hash_of(level as u8, path[level as int], below)
        }
    }
}

/// A leaf, its absolute position, and the sibling of each node on the way from
/// the leaf to the root.
#[derive(Clone, Copy)]
pub struct MerklePath {
    pub value: Fp,
    pub position: u32,
    pub path: [Fp; DEPTH],
}

impl Default for MerklePath {
    /// The path of the leaf zero at position 0 beside siblings that are zero.
    fn default() -> (mp: MerklePath)
        ensures
            mp.value@ == 0,
            mp.position == 0,
            forall|k: int| 0 <= k < 32 ==> (#[trigger] mp.path@[k])@ == 0,
    {
        let zero = Fp::zero();
        MerklePath { value: zero, position: 0, path: [zero;DEPTH] }
    }
}

impl MerklePath {
    /// The root that the path leads to.
    pub open spec fn spec_root(&self) -> nat {
        climb(self.value@, self.position as nat, values(self.path@), 32)
    }

    /// Hashes the leaf with its 32 siblings, from the leaves up.
    pub fn root(&self) -> (r: Fp)
        ensures
            r@ == self.spec_root(),
    {
        let mut node = self.value;
        let mut at: u32 = self.position;
        let mut level: u8 = 0;
        while level < 32
            invariant
                level <= 32,
                at as nat == shr(self.position as nat, level as nat),
                node@ == climb(self.value@, self.position as nat, values(self.path@), level as nat),
            decreases 32 - level,
        {
            let other = self.path[level as usize];
            if at % 2 == 0 {
                node = cmx_hash(level, &node, &other);
            } else {
                node = cmx_hash(level, &other, &node);
            }
            at = at / 2;
            level += 1;
        }
        node
    }
}

/// Right of the slice every node is the root of an empty subtree, and at no
/// layer does the slice end before it starts.
pub proof fn lemma_empty_right(lefts: Seq<Option<nat>>, leaves: Seq<nat>, level: nat, index: nat)
    requires
        index >= ceil_shr(position_from(lefts, 0) + leaves.len(), level),
    ensures
        node(lefts, leaves, level, index) == empty_hash(level),
        ceil_shr(position_from(lefts, 0) + leaves.len(), level) >= position_from(lefts, level),
    decreases level,
{
    if level > 0 {
        lemma_empty_right(lefts, leaves, (level - 1) as nat, 2 * index);
        lemma_empty_right(lefts, leaves, (level - 1) as nat, 2 * index + 1);
    }
}

/// A path whose siblings are the tree's nodes beside the way up from a leaf of
/// the slice climbs, after `height` steps, to the tree's node above that leaf.
pub proof fn lemma_climb(
    lefts: Seq<Option<nat>>,
    leaves: Seq<nat>,
    position: nat,
    path: Seq<nat>,
    height: nat,
)
    requires
        height <= 32,
        path.len() == 32,
        position_from(lefts, 0) <= position < position_from(lefts, 0) + leaves.len(),
        forall|k: int|
            0 <= k < 32 ==> (#[trigger] path[k]) == node(
                lefts,
                leaves,
                k as nat,
                sibling(shr(position, k as nat)),
            ),
    ensures
        climb(leaves[position - position_from(lefts, 0)], position, path, height) == node(
            lefts,
            leaves,
            height,
            shr(position, height),
        ),
        shr(position, height) >= position_from(lefts, height),
    decreases height,
{
    if height > 0 {
        let level = (height - 1) as nat;
        lemma_climb(lefts, leaves, position, path, level);
        assert(path[level as int] == node(lefts, leaves, level, sibling(shr(position, level))));
    }
}

/// A number below `2^n` halved `k` times is below `2^(n - k)`.
pub proof fn lemma_shr_bound(x: nat, n: nat, k: nat)
    requires
        k <= n,
        x < pow2(n),
    ensures
        shr(x, k) < pow2((n - k) as nat),
    decreases k,
{
    if k > 0 {
        lemma_shr_bound(x, n, (k - 1) as nat);
        lemma_pow2_unfold((n - k + 1) as nat);
    }
}

/// Every path of the tree verifies: a path that holds the tree's own siblings
/// of a leaf of the slice leads to the tree's root.
pub proof fn lemma_path_leads_to_root(
    lefts: Seq<Option<nat>>,
    leaves: Seq<nat>,
    position: nat,
    path: Seq<nat>,
)
    requires
        path.len() == 32,
        position < 0x1_0000_0000,
        position_from(lefts, 0) <= position < position_from(lefts, 0) + leaves.len(),
        forall|k: int|
            0 <= k < 32 ==> (#[trigger] path[k]) == node(
                lefts,
                leaves,
                k as nat,
                sibling(shr(position, k as nat)),
            ),
    ensures
        climb(leaves[position - position_from(lefts, 0)], position, path, 32) == tree_root(
            lefts,
            leaves,
        ),
{
    lemma_climb(lefts, leaves, position, path, 32);
    lemma2_to64();
    lemma_shr_bound(position, 32, 32);
}


/// Whether `position` is the absolute position of a leaf of the slice.
pub open spec fn in_slice(lefts: Seq<Option<nat>>, leaves: Seq<nat>, position: u32) -> bool {
    position_from(lefts, 0) <= position < position_from(lefts, 0) + leaves.len()
}

/// The index of the first node of the working layer at `level`: the frontier's
/// node where the layer holds one, else the first node above the slice.
pub open spec fn layer_start(lefts: Seq<Option<nat>>, level: nat) -> nat {
    (position_from(lefts, level) - position_from(lefts, level) % 2) as nat
}

/// Whether `layer` is the working layer at `level`: an even number of the
/// tree's nodes in a row, from `layer_start` to the end of the slice or beyond.
pub open spec fn is_layer(
    layer: Seq<Fp>,
    lefts: Seq<Option<nat>>,
    leaves: Seq<nat>,
    level: nat,
) -> bool {
    &&& layer.len() % 2 == 0
    &&& layer_start(lefts, level) + layer.len() >= ceil_shr(
        position_from(lefts, 0) + leaves.len(),
        level,
    )
    &&& forall|m: int|
        0 <= m < layer.len() ==> (#[trigger] layer[m])@ == node(
            lefts,
            leaves,
            level,
            (layer_start(lefts, level) + m) as nat,
        )
}

/// Whether `path` holds, layer by layer, the tree's sibling of the node above
/// the leaf at `position`.
pub open spec fn is_path_of(
    path: Seq<nat>,
    lefts: Seq<Option<nat>>,
    leaves: Seq<nat>,
    position: nat,
) -> bool {
    &&& path.len() == 32
    &&& forall|k: int|
        0 <= k < 32 ==> (#[trigger] path[k]) == node(
            lefts,
            leaves,
            k as nat,
            sibling(shr(position, k as nat)),
        )
}

/// The layer of the leaves: the frontier's leaf if there is one, the slice,
/// and an empty leaf where that makes the count even.
fn first_layer(ph: &PreviousHashes, hashes: &[Fp]) -> (layer: Vec<Fp>)
    ensures
        is_layer(layer@, ph@, values(hashes@), 0),
{
    let ghost lefts = ph@;
    let ghost start = layer_start(lefts, 0);
    let mut layer: Vec<Fp> = Vec::new();
    match ph.lefts[0] {
        Some(h) => {
            layer.push(h);
        },
        None => {},
    }
    let ghost pre = layer.len();
    let mut m: usize = 0;
    while m < hashes.len()
        invariant
            lefts == ph@,
            start == layer_start(lefts, 0),
            m <= hashes.len(),
            layer.len() == pre + m,
            start + pre == position_from(lefts, 0),
            forall|t: int|
                0 <= t < layer.len() ==> (#[trigger] layer[t])@ == node(
                    lefts,
                    values(hashes@),
                    0,
                    (start + t) as nat,
                ),
        decreases hashes.len() - m,
    {
        layer.push(hashes[m]);
        m += 1;
    }
    if layer.len() % 2 == 1 {
        layer.push(empty_hash_at(0));
    }
    layer
}

/// The layer above `layer`: the frontier's node if there is one, the hash of
/// each pair, and an empty subtree's root where that makes the count even.
/// Returns the new layer and the index of its first node.
fn fold_layer(
    ph: &PreviousHashes,
    Ghost(leaves): Ghost<Seq<nat>>,
    layer: &Vec<Fp>,
    level: u8,
    start: usize,
    empty_above: &Fp,
) -> (r: (Vec<Fp>, usize))
    requires
        level < 32,
        is_layer(layer@, ph@, leaves, level as nat),
        start == layer_start(ph@, level as nat),
        empty_above@ == empty_hash((level + 1) as nat),
    ensures
        is_layer(r.0@, ph@, leaves, (level + 1) as nat),
        r.1 == layer_start(ph@, (level + 1) as nat),
{
    let ghost lefts = ph@;
    let ghost above = (level + 1) as nat;
    let mut next: Vec<Fp> = Vec::new();
    let mut next_start: usize = start / 2;
    proof {
        assert(position_from(lefts, level as nat) == (if lefts[level as int].is_some() {
            1nat
        } else {
            0nat
        }) + 2 * position_from(lefts, above));
        assert(next_start == position_from(lefts, above));
    }
    if level < 31 {
        match ph.lefts[(level + 1) as usize] {
            Some(h) => {
                next.push(h);
                next_start = next_start - 1;
            },
            None => {},
        }
    }
    let ghost pre = next.len();
    let pairs = layer.len() / 2;
    let mut t: usize = 0;
    while t < pairs
        invariant
            lefts == ph@,
            above == level + 1,
            level < 32,
            is_layer(layer@, lefts, leaves, level as nat),
            start == layer_start(lefts, level as nat),
            pairs == layer.len() / 2,
            t <= pairs,
            next.len() == pre + t,
            next_start == layer_start(lefts, above),
            next_start + pre == position_from(lefts, above),
            2 * position_from(lefts, above) == start,
            forall|m: int|
                0 <= m < next.len() ==> (#[trigger] next[m])@ == node(
                    lefts,
                    leaves,
                    above,
                    (next_start + m) as nat,
                ),
        decreases pairs - t,
    {
        let left = layer[2 * t];
        let right = layer[2 * t + 1];
        let parent = cmx_hash(level, &left, &right);
        proof {
            assert(layer@[2 * t]@ == node(lefts, leaves, level as nat, (start + 2 * t) as nat));
            assert(layer@[2 * t + 1]@ == node(
                lefts,
                leaves,
                level as nat,
                (start + 2 * t + 1) as nat,
            ));
            assert(2 * (next_start + pre + t) == start + 2 * t);
        }
        next.push(parent);
        t += 1;
    }
    if next.len() % 2 == 1 {
        proof {
            lemma_empty_right(lefts, leaves, above, (next_start + next.len()) as nat);
        }
        next.push(*empty_above);
    }
    (next, next_start)
}

/// For each requested leaf, the sibling in `layer` of the node above it; moves
/// each cursor to the layer above.
fn siblings_at(
    layer: &Vec<Fp>,
    start: usize,
    cursors: &mut Vec<usize>,
    Ghost(lefts): Ghost<Seq<Option<nat>>>,
    Ghost(leaves): Ghost<Seq<nat>>,
    Ghost(positions): Ghost<Seq<u32>>,
    Ghost(level): Ghost<nat>,
) -> (sibs: Vec<Fp>)
    requires
        is_layer(layer@, lefts, leaves, level),
        start == layer_start(lefts, level),
        old(cursors).len() == positions.len(),
        forall|j: int|
            0 <= j < positions.len() ==> (#[trigger] old(cursors)[j]) == shr(
                positions[j] as nat,
                level,
            ),
        forall|j: int|
            0 <= j < positions.len() ==> start <= shr(#[trigger] positions[j] as nat, level)
                < start + layer.len(),
    ensures
        final(cursors).len() == positions.len(),
        forall|j: int|
            0 <= j < positions.len() ==> (#[trigger] final(cursors)[j]) == shr(
                positions[j] as nat,
                level + 1,
            ),
        sibs.len() == positions.len(),
        forall|j: int|
            0 <= j < positions.len() ==> (#[trigger] sibs[j])@ == node(
                lefts,
                leaves,
                level,
                sibling(shr(positions[j] as nat, level)),
            ),
{
    let mut sibs: Vec<Fp> = Vec::new();
    let mut j: usize = 0;
    while j < cursors.len()
        invariant
            is_layer(layer@, lefts, leaves, level),
            start == layer_start(lefts, level),
            cursors.len() == positions.len(),
            j <= cursors.len(),
            sibs.len() == j,
            forall|i: int|
                0 <= i < j ==> (#[trigger] cursors[i]) == shr(positions[i] as nat, level + 1),
            forall|i: int|
                j <= i < positions.len() ==> (#[trigger] cursors[i]) == shr(
                    positions[i] as nat,
                    level,
                ),
            forall|i: int|
                0 <= i < positions.len() ==> start <= shr(#[trigger] positions[i] as nat, level)
                    < start + layer.len(),
            forall|i: int|
                0 <= i < j ==> (#[trigger] sibs[i])@ == node(
                    lefts,
                    leaves,
                    level,
                    sibling(shr(positions[i] as nat, level)),
                ),
        decreases cursors.len() - j,
    {
        let at = cursors[j];
        proof {
            assert(start <= shr(positions[j as int] as nat, level) < start + layer.len());
        }
        let idx = at - start;
        let other = if idx % 2 == 1 {
            layer[idx - 1]
        } else {
            layer[idx + 1]
        };
        sibs.push(other);
        cursors.set(j, at / 2);
        j += 1;
    }
    sibs
}

/// The siblings of one requested leaf, gathered from the rows of siblings that
/// each layer gave.
fn gather_path(
    sibs: &Vec<Vec<Fp>>,
    j: usize,
    filler: Fp,
    Ghost(lefts): Ghost<Seq<Option<nat>>>,
    Ghost(leaves): Ghost<Seq<nat>>,
    Ghost(position): Ghost<nat>,
) -> (path: [Fp; DEPTH])
    requires
        sibs.len() == 32,
        forall|k: int| 0 <= k < 32 ==> j < (#[trigger] sibs[k]).len(),
        forall|k: int|
            0 <= k < 32 ==> (#[trigger] sibs[k])[j as int]@ == node(
                lefts,
                leaves,
                k as nat,
                sibling(shr(position, k as nat)),
            ),
    ensures
        is_path_of(values(path@), lefts, leaves, position),
{
    let mut path = [filler;DEPTH];
    let mut k: usize = 0;
    while k < DEPTH
        invariant
            k <= 32,
            sibs.len() == 32,
            path@.len() == 32,
            forall|i: int| 0 <= i < 32 ==> j < (#[trigger] sibs[i]).len(),
            forall|i: int|
                0 <= i < 32 ==> (#[trigger] sibs[i])[j as int]@ == node(
                    lefts,
                    leaves,
                    i as nat,
                    sibling(shr(position, i as nat)),
                ),
            forall|i: int|
                0 <= i < k ==> (#[trigger] path@[i])@ == node(
                    lefts,
                    leaves,
                    i as nat,
                    sibling(shr(position, i as nat)),
                ),
        decreases 32 - k,
    {
        let row = &sibs[k];
        let h = row[j];
        path[k] = h;
        k += 1;
    }
    path
}

/// Builds, for each requested absolute position, the Merkle path of the leaf
/// there, and the root of the tree of depth 32 over the frontier `ph` and the
/// leaves `hashes`, which start at position `ph.position()`.
///
/// Fails with `OutOfRange` on the first requested position that is no
/// position of a leaf of the slice.
pub fn calculate_merkle_paths(ph: &PreviousHashes, positions: &[u32], hashes: &[Fp]) -> (r: Result<
    (Fp, Vec<MerklePath>),
    VoteError,
>)
    ensures
        match r {
            Ok((root, paths)) => {
                &&& forall|j: int|
                    0 <= j < positions.len() ==> in_slice(
                        ph@,
                        values(hashes@),
                        #[trigger] positions[j],
                    )
                &&& root@ == tree_root(ph@, values(hashes@))
                &&& paths.len() == positions.len()
                &&& forall|j: int|
                    0 <= j < positions.len() ==> {
                        &&& (#[trigger] paths[j]).position == positions[j]
                        &&& paths[j].value == hashes[positions[j] - ph.spec_position()]
                        &&& is_path_of(values(paths[j].path@), ph@, values(hashes@), positions[j] as nat)
                        &&& paths[j].spec_root() == root@
                    }
            },
            Err(e) => exists|j: int|
                {
                    &&& 0 <= j < positions.len()
                    &&& !in_slice(ph@, values(hashes@), #[trigger] positions[j])
                    &&& forall|i: int|
                        0 <= i < j ==> in_slice(ph@, values(hashes@), #[trigger] positions[i])
                    &&& e == VoteError::OutOfRange(positions[j] as usize)
                },
        },
{
    let ghost lefts = ph@;
    let ghost leaves = values(hashes@);
    let ghost end = position_from(lefts, 0) + leaves.len();
    let offset = ph.position();
    let mut found: Vec<Fp> = Vec::new();
    let mut cursors: Vec<usize> = Vec::new();
    let mut j: usize = 0;
    while j < positions.len()
        invariant
            lefts == ph@,
            leaves == values(hashes@),
            offset == position_from(lefts, 0),
            j <= positions.len(),
            found.len() == j,
            cursors.len() == j,
            forall|i: int| 0 <= i < j ==> in_slice(lefts, leaves, #[trigger] positions[i]),
            forall|i: int| 0 <= i < j ==> (#[trigger] cursors[i]) == positions[i],
            forall|i: int| 0 <= i < j ==> (#[trigger] found[i]) == hashes[positions[i] - offset],
        decreases positions.len() - j,
    {
        let p = positions[j] as usize;
        if p < offset || p - offset >= hashes.len() {
            return Err(VoteError::OutOfRange(p));
        }
        found.push(hashes[p - offset]);
        cursors.push(p);
        j += 1;
    }
    let mut layer = first_layer(ph, hashes);
    let mut start: usize = offset - offset % 2;
    let mut empty = empty_hash_at(0);
    let mut sibs: Vec<Vec<Fp>> = Vec::new();
    let mut level: u8 = 0;
    proof {
        lemma_empty_right(lefts, leaves, 0, end);
    }
    while level < 32
        invariant
            lefts == ph@,
            leaves == values(hashes@),
            end == position_from(lefts, 0) + leaves.len(),
            level <= 32,
            is_layer(layer@, lefts, leaves, level as nat),
            start == layer_start(lefts, level as nat),
            empty@ == empty_hash(level as nat),
            cursors.len() == positions.len(),
            forall|i: int|
                0 <= i < positions.len() ==> (#[trigger] cursors[i]) == shr(
                    positions[i] as nat,
                    level as nat,
                ),
            forall|i: int|
                0 <= i < positions.len() ==> position_from(lefts, level as nat) <= shr(
                    #[trigger] positions[i] as nat,
                    level as nat,
                ) < ceil_shr(end, level as nat),
            sibs.len() == level,
            forall|k: int| 0 <= k < level ==> (#[trigger] sibs[k]).len() == positions.len(),
            forall|k: int, i: int|
                0 <= k < level && 0 <= i < positions.len() ==> (#[trigger] sibs[k][i])@ == node(
                    lefts,
                    leaves,
                    k as nat,
                    sibling(shr(positions[i] as nat, k as nat)),
                ),
        decreases 32 - level,
    {
        let row = siblings_at(
            &layer,
            start,
            &mut cursors,
            Ghost(lefts),
            Ghost(leaves),
            Ghost(positions@),
            Ghost(level as nat),
        );
        sibs.push(row);
        empty = cmx_hash(level, &empty, &empty);
        let folded = fold_layer(ph, Ghost(leaves), &layer, level, start, &empty);
        layer = folded.0;
        start = folded.1;
        level += 1;
    }
    let root = if layer.len() > 0 {
        layer[0]
    } else {
        proof {
            lemma_empty_right(lefts, leaves, 32, 0);
        }
        empty
    };
    let mut paths: Vec<MerklePath> = Vec::new();
    j = 0;
    while j < positions.len()
        invariant
            lefts == ph@,
            leaves == values(hashes@),
            offset == position_from(lefts, 0),
            root@ == tree_root(lefts, leaves),
            j <= positions.len(),
            paths.len() == j,
            found.len() == positions.len(),
            sibs.len() == 32,
            forall|i: int|
                0 <= i < positions.len() ==> in_slice(lefts, leaves, #[trigger] positions[i]),
            forall|i: int|
                0 <= i < positions.len() ==> (#[trigger] found[i]) == hashes[positions[i]
                    - offset],
            forall|k: int| 0 <= k < 32 ==> (#[trigger] sibs[k]).len() == positions.len(),
            forall|k: int, i: int|
                0 <= k < 32 && 0 <= i < positions.len() ==> (#[trigger] sibs[k][i])@ == node(
                    lefts,
                    leaves,
                    k as nat,
                    sibling(shr(positions[i] as nat, k as nat)),
                ),
            forall|i: int|
                0 <= i < j ==> {
                    &&& (#[trigger] paths[i]).position == positions[i]
                    &&& paths[i].value == hashes[positions[i] - offset]
                    &&& is_path_of(values(paths[i].path@), lefts, leaves, positions[i] as nat)
                    &&& paths[i].spec_root() == root@
                },
        decreases positions.len() - j,
    {
        let position = positions[j];
        let path = gather_path(
            &sibs,
            j,
            empty,
            Ghost(lefts),
            Ghost(leaves),
            Ghost(position as nat),
        );
        proof {
            assert(in_slice(lefts, leaves, positions[j as int]));
            lemma_path_leads_to_root(lefts, leaves, position as nat, values(path@));
        }
        paths.push(MerklePath { value: found[j], position, path });
        j += 1;
    }
    Ok((root, paths))
}


/// The frontier of a tree with no leaf to the left of the slice.
pub open spec fn no_frontier() -> Seq<Option<nat>> {
    Seq::new(32, |i: int| None::<nat>)
}

/// Above no leaves there are no nodes, at any layer.
pub proof fn lemma_ceil_shr_zero(k: nat)
    ensures
        ceil_shr(0, k) == 0,
    decreases k,
{
    if k > 0 {
        lemma_ceil_shr_zero((k - 1) as nat);
    }
}

/// The root of the tree without any leaf is the hash of the empty tree of
/// depth 32.
pub proof fn lemma_empty_tree_root()
    ensures
        tree_root(no_frontier(), Seq::empty()) == empty_hash(32),
{
    lemma_all_vacant(no_frontier(), 0);
    lemma_ceil_shr_zero(32);
    lemma_empty_right(no_frontier(), Seq::empty(), 32, 0);
}


/// The frontier that the leaves of a tree leave behind for the leaves that
/// follow: at each layer the last complete node, where the number of complete
/// nodes there is odd.
pub open spec fn frontier_of(leaves: Seq<nat>) -> Seq<Option<nat>> {
    Seq::new(
        32,
        |i: int|
            if shr(leaves.len(), i as nat) % 2 == 1 {
                Some(
                    node(
                        no_frontier(),
                        leaves,
                        i as nat,
                        (shr(leaves.len(), i as nat) - 1) as nat,
                    ),
                )
            } else {
                None
            },
    )
}

/// The frontier of fewer than `2^32` leaves spells, from each layer up, the
/// number of complete nodes at that layer; from the leaves up, their number.
pub proof fn lemma_frontier_position(leaves: Seq<nat>, i: nat)
    requires
        leaves.len() < 0x1_0000_0000,
        i <= 32,
    ensures
        position_from(frontier_of(leaves), i) == shr(leaves.len(), i),
    decreases 32 - i,
{
    if i < 32 {
        lemma_frontier_position(leaves, i + 1);
    } else {
        lemma2_to64();
        lemma_shr_bound(leaves.len(), 32, 32);
    }
}

/// A complete node above the first leaves does not depend on the leaves that
/// follow.
pub proof fn lemma_complete_node(first: Seq<nat>, next: Seq<nat>, level: nat, index: nat)
    requires
        index < shr(first.len(), level),
    ensures
        node(no_frontier(), first, level, index) == node(
            no_frontier(),
            first + next,
            level,
            index,
        ),
    decreases level,
{
    lemma_all_vacant(no_frontier(), level);
    if level > 0 {
        lemma_complete_node(first, next, (level - 1) as nat, 2 * index);
        lemma_complete_node(first, next, (level - 1) as nat, 2 * index + 1);
    } else {
        assert((first + next)[index as int] == first[index as int]);
    }
}

/// Behind the frontier of the first leaves, every node at or right of the
/// slice of the next leaves, and the frontier's own node at each layer, is the
/// node of the tree over all the leaves.
pub proof fn lemma_node_behind_frontier(first: Seq<nat>, next: Seq<nat>, level: nat, index: nat)
    requires
        first.len() < 0x1_0000_0000,
        level <= 32,
        index + 1 >= shr(first.len(), level),
        index + 1 == shr(first.len(), level) ==> shr(first.len(), level) % 2 == 1,
    ensures
        node(frontier_of(first), next, level, index) == node(
            no_frontier(),
            first + next,
            level,
            index,
        ),
    decreases level,
{
    let lefts = frontier_of(first);
    lemma_frontier_position(first, level);
    lemma_all_vacant(no_frontier(), level);
    if index < shr(first.len(), level) {
        lemma_complete_node(first, next, level, index);
    } else if level > 0 {
        lemma_frontier_position(first, (level - 1) as nat);
        lemma_node_behind_frontier(first, next, (level - 1) as nat, 2 * index);
        lemma_node_behind_frontier(first, next, (level - 1) as nat, 2 * index + 1);
    } else {
        let at = index - first.len();
        if at < next.len() {
            assert((first + next)[index as int] == next[at]);
        }
    }
}

/// A tree can be built in two parts: the root over the frontier that the first
/// leaves leave behind and the leaves that follow is the root over all the
/// leaves.
pub proof fn lemma_root_behind_frontier(first: Seq<nat>, next: Seq<nat>)
    requires
        first.len() < 0x1_0000_0000,
    ensures
        position_from(frontier_of(first), 0) == first.len(),
        tree_root(frontier_of(first), next) == tree_root(no_frontier(), first + next),
{
    lemma_frontier_position(first, 0);
    lemma_frontier_position(first, 32);
    lemma_node_behind_frontier(first, next, 32, 0);
}

} // verus!
