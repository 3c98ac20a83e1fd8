use crate::field::Fp;
use crate::hash::{cmx_hash, cmx_hash_of};
use vstd::arithmetic::power2::{lemma2_to64, lemma_pow2_strictly_increases, lemma_pow2_unfold, pow2};
use vstd::prelude::*;

verus! {

/// The depth of both Merkle trees.
pub const DEPTH: usize = 32;

/// The number that the frontier's occupied layers spell from layer `i` up:
/// layer `i` counts 1, layer `i + 1` counts 2, and so on.
pub open spec fn position_from(lefts: Seq<Option<nat>>, i: nat) -> nat
    decreases 32 - i,
{
    if i >= 32 {
        0
    } else {
        (if lefts[i as int].is_some() {
            1nat
        } else {
            0nat
        }) + 2 * position_from(lefts, i + 1)
    }
}

impl Default for PreviousHashes {
    /// The frontier of a tree that holds no leaf yet.
    fn default() -> (ph: PreviousHashes)
        ensures
            ph@ == Seq::new(32, |i: int| None::<nat>),
            ph.spec_position() == 0,
    {
        PreviousHashes::new()
    }
}

/// What the frontier's layers from `i` up spell is below `2^(32 - i)`.
pub proof fn lemma_position_bound(lefts: Seq<Option<nat>>, i: nat)
    requires
        i <= 32,
    ensures
        position_from(lefts, i) < pow2((32 - i) as nat),
        pow2((32 - i) as nat) <= 0x1_0000_0000,
    decreases 32 - i,
{
    lemma2_to64();
    if i < 32 {
        lemma_position_bound(lefts, i + 1);
        lemma_pow2_unfold((32 - i) as nat);
    }
    if i > 0 {
        lemma_pow2_strictly_increases((32 - i) as nat, 32);
    }
}

/// The frontier to the left of a slice of leaves: at each layer the finished
/// left node that still waits for its right sibling, if there is one.
pub struct PreviousHashes {
    pub lefts: [Option<Fp>; DEPTH],
}

/// The number held at a layer of the frontier, if a node is held there.
pub open spec fn held(left: Option<Fp>) -> Option<nat> {
    match left {
        Some(h) => Some(h@),
        None => None,
    }
}

impl View for PreviousHashes {
    type V = Seq<Option<nat>>;

    /// The 32 layers, each as the number of its node, if it holds one.
    open spec fn view(&self) -> Seq<Option<nat>> {
        self.lefts@.map_values(|left: Option<Fp>| held(left))
    }
}

impl PreviousHashes {
    /// The frontier of a tree that holds no leaf yet.
    pub fn new() -> (ph: PreviousHashes)
        ensures
            ph@ == Seq::new(32, |i: int| None::<nat>),
            ph.spec_position() == 0,
    {
        let ph = PreviousHashes { lefts: [None;DEPTH] };
        proof {
            assert(ph@ =~= Seq::new(32, |i: int| None::<nat>));
            lemma_all_vacant(ph@, 0);
        }
        ph
    }

    /// The number of leaves to the left of the slice: the sum of `2^i` over
    /// the layers `i` that hold a node.
    pub open spec fn spec_position(&self) -> nat {
        position_from(self@, 0)
    }

    /// The number of leaves to the left of the slice.
    pub fn position(&self) -> (p: usize)
        ensures
            p as nat == self.spec_position(),
            p < 0x1_0000_0000,
    {
        let mut p: usize = 0;
        let mut i: usize = DEPTH;
        proof {
            lemma2_to64();
        }
        while i > 0
            invariant
                i <= 32,
                p as nat == position_from(self@, i as nat),
                p < 0x1_0000_0000,
            decreases i,
        {
            i -= 1;
            proof {
                lemma_position_bound(self@, i as nat);
            }
            let bit: usize = if self.lefts[i].is_some() {
                1
            } else {
                0
            };
            p = 2 * p + bit;
        }
        p
    }
}

/// A frontier with no node from layer `i` up spells zero there.
pub proof fn lemma_all_vacant(lefts: Seq<Option<nat>>, i: nat)
    requires
        lefts.len() == 32,
        forall|k: int| i <= k < 32 ==> lefts[k].is_none(),
    ensures
        position_from(lefts, i) == 0,
    decreases 32 - i,
{
    if i < 32 {
        lemma_all_vacant(lefts, i + 1);
    }
}


/// The layers of a commitment tree's state, from the leaves up: its left
/// leaf, then its parents, then layers without a node.
pub open spec fn tree_lefts(left: Option<nat>, parents: Seq<Option<nat>>) -> Seq<Option<nat>> {
    Seq::new(
        32,
        |i: int|
            if i == 0 {
                left
            } else if i - 1 < parents.len() {
                parents[i - 1]
            } else {
                None
            },
    )
}

/// The frontier after the node `r` of layer `i` is added to it: where the
/// layer holds a node, the two are hashed, the layer is emptied and the hash
/// is carried to the layer above; where it holds none, `r` is put there. A
/// node carried beyond the last layer is dropped.
pub open spec fn carried(lefts: Seq<Option<nat>>, r: nat, i: nat) -> Seq<Option<nat>>
    decreases 32 - i,
{
    if i >= 32 {
        lefts
    } else {
        match lefts[i as int] {
            Some(l) => carried(lefts.update(i as int, None), cmx_hash_of(i as u8, l, r), i + 1),
            None => lefts.update(i as int, Some(r)),
        }
    }
}

/// Whether every layer from `i` up holds a node.
pub open spec fn full_from(lefts: Seq<Option<nat>>, i: nat) -> bool {
    forall|k: int| i <= k < 32 ==> (#[trigger] lefts[k]).is_some()
}

/// What the layers from `i` up spell does not depend on the layers below.
pub proof fn lemma_position_above(a: Seq<Option<nat>>, b: Seq<Option<nat>>, i: nat)
    requires
        a.len() == 32,
        b.len() == 32,
        forall|k: int| i <= k < 32 ==> a[k].is_some() == b[k].is_some(),
    ensures
        position_from(a, i) == position_from(b, i),
    decreases 32 - i,
{
    if i < 32 {
        lemma_position_above(a, b, i + 1);
    }
}

/// Adding a node at layer `i` adds one to what the layers from `i` up spell,
/// unless all of them hold a node: then they spell zero afterwards.
pub proof fn lemma_carry_adds_one(lefts: Seq<Option<nat>>, r: nat, i: nat)
    requires
        lefts.len() == 32,
        i <= 32,
    ensures
        carried(lefts, r, i).len() == 32,
        forall|k: int| 0 <= k < i ==> carried(lefts, r, i)[k] == lefts[k],
        !full_from(lefts, i) ==> position_from(carried(lefts, r, i), i) == position_from(lefts, i)
            + 1,
        full_from(lefts, i) ==> position_from(carried(lefts, r, i), i) == 0,
    decreases 32 - i,
{
    if i < 32 {
        let after = carried(lefts, r, i);
        match lefts[i as int] {
            Some(l) => {
                let emptied = lefts.update(i as int, None);
                let up = cmx_hash_of(i as u8, l, r);
                lemma_carry_adds_one(emptied, up, i + 1);
                lemma_position_above(emptied, lefts, i + 1);
                assert(after == carried(emptied, up, i + 1));
                assert(after[i as int] == emptied[i as int]);
                assert forall|k: int| 0 <= k < i implies after[k] == lefts[k] by {
                    assert(after[k] == emptied[k]);
                }
                if full_from(lefts, i) {
                    assert forall|k: int| i + 1 <= k < 32 implies (#[trigger] emptied[k]).is_some() by {
                        assert(lefts[k].is_some());
                    }
                } else {
                    let k = choose|k: int| i <= k < 32 && !(#[trigger] lefts[k]).is_some();
                    assert(!emptied[k].is_some());
                }
            },
            None => {
                lemma_position_above(after, lefts, i + 1);
                assert(!lefts[i as int].is_some());
            },
        }
    }
}

impl PreviousHashes {
    /// The frontier of a commitment tree from its state: its left and right
    /// leaf and its parents from the leaves up.
    ///
    /// No layer of a frontier holds two nodes. Where the state has a right
    /// leaf, it is hashed with the left one, and the hash is carried up as
    /// far as the layers hold a node.
    pub fn from_tree_state(left: Option<Fp>, right: Option<Fp>, parents: &[Option<Fp>]) -> (ph:
        PreviousHashes)
        requires
            parents.len() <= 31,
        ensures
            ph@ == match right {
                Some(r) => carried(
                    tree_lefts(held(left), parents@.map_values(|p: Option<Fp>| held(p))),
                    r@,
                    0,
                ),
                None => tree_lefts(held(left), parents@.map_values(|p: Option<Fp>| held(p))),
            },
    {
        let ghost state = tree_lefts(held(left), parents@.map_values(|p: Option<Fp>| held(p)));
        let mut ph = PreviousHashes { lefts: [None;DEPTH] };
        ph.lefts[0] = left;
        let mut i: usize = 0;
        while i < parents.len()
            invariant
                i <= parents.len() <= 31,
                ph.lefts@.len() == 32,
                ph.lefts@[0] == left,
                forall|k: int| 0 <= k < i ==> ph.lefts@[k + 1] == parents@[k],
                forall|k: int| i < k < 32 ==> ph.lefts@[k].is_none(),
            decreases parents.len() - i,
        {
            ph.lefts[i + 1] = parents[i];
            i += 1;
        }
        assert(ph@ =~= state);
        match right {
            Some(first) => {
                let mut r = first;
                let mut done = false;
                let mut layer: usize = 0;
                while layer < 32 && !done
                    invariant
                        layer <= 32,
                        ph.lefts@.len() == 32,
                        !done ==> carried(state, first@, 0) == carried(ph@, r@, layer as nat),
                        done ==> ph@ == carried(state, first@, 0),
                    decreases 32 - layer,
                {
                    let ghost before = ph@;
                    match ph.lefts[layer] {
                        Some(l) => {
                            r = cmx_hash(layer as u8, &l, &r);
                            ph.lefts[layer] = None;
                            assert(ph@ =~= before.update(layer as int, None));
                        },
                        None => {
                            ph.lefts[layer] = Some(r);
                            assert(ph@ =~= before.update(layer as int, Some(r@)));
                            done = true;
                        },
                    }
                    layer += 1;
                }
                ph
            },
            None => ph,
        }
    }
}

} // verus!
