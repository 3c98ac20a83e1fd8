use crate::errors::VoteError;
use crate::hash::{empty_hash, empty_hash_at};
use crate::field::{modulus, sort_elements, values, Fp};
use crate::path::{calculate_merkle_paths, is_path_of, no_frontier, tree_root, MerklePath};
use crate::prevhash::PreviousHashes;
use crate::bytes::{hex_of, hex_string};
use vstd::arithmetic::div_mod::{lemma_mod_self_0, lemma_small_mod};
use vstd::prelude::*;

verus! {

/// Where the next range of unused values starts once the first `k`
/// nullifiers are passed: at zero, or just after the `k`-th nullifier.
pub open spec fn next_start(nfs: Seq<nat>, k: nat) -> nat {
    if k == 0 {
        0
    } else {
        (nfs[k - 1] + 1) % modulus()
    }
}

/// The range leaves that the first `k` nullifiers give: before each nullifier
/// the range from the last start to its predecessor, unless that range is
/// empty.
pub open spec fn ranges_upto(nfs: Seq<nat>, k: nat) -> Seq<nat>
    decreases k,
{
    if k == 0 {
        Seq::empty()
    } else {
        let before = ranges_upto(nfs, (k - 1) as nat);
        let a = next_start(nfs, (k - 1) as nat);
        if a < nfs[k - 1] {
            before.push(a).push((nfs[k - 1] - 1) as nat)
        } else {
            before
        }
    }
}

/// The leaves of the nullifier-range tree: the ranges before each nullifier,
/// then the range from the last start to the largest field element, unless
/// that start is zero.
pub open spec fn nf_ranges(nfs: Seq<nat>) -> Seq<nat> {
    let before = ranges_upto(nfs, nfs.len());
    let a = next_start(nfs, nfs.len());
    if a != 0 {
        before.push(a).push((modulus() - 1) as nat)
    } else {
        before
    }
}

/// Whether the leaves at `i` and `i + 1` are a range, and `v` lies in it.
pub open spec fn holds(leaves: Seq<nat>, i: int, v: nat) -> bool {
    &&& 0 <= i
    &&& i % 2 == 0
    &&& i + 1 < leaves.len()
    &&& leaves[i] <= v <= leaves[i + 1]
}

/// Whether the leaves are ranges in ascending order with a gap between each
/// range and the next.
pub open spec fn is_range_list(leaves: Seq<nat>) -> bool {
    &&& leaves.len() % 2 == 0
    &&& forall|i: int, j: int| 0 <= i <= j < leaves.len() ==> leaves[i] <= leaves[j]
    &&& forall|i: int, j: int|
        0 <= i && i % 2 == 1 && j == i + 1 && j < leaves.len() ==> (#[trigger] leaves[i])
            < #[trigger] leaves[j]
}

/// Whether the numbers ascend strictly.
pub open spec fn ascending(nfs: Seq<nat>) -> bool {
    forall|i: int, j: int| 0 <= i < j < nfs.len() ==> nfs[i] < nfs[j]
}

/// Whether every number is a field element.
pub open spec fn in_field(nfs: Seq<nat>) -> bool {
    forall|i: int| 0 <= i < nfs.len() ==> (#[trigger] nfs[i]) < modulus()
}

/// Turns the nullifiers of a snapshot, in ascending order, into the leaves of
/// the nullifier-range tree.
///
/// A snapshot without nullifiers has no leaf: the last range is emitted only
/// after a nullifier. Its tree is the empty tree, and in it no value lies in a
/// range, so that every nullifier searched there is reported as used.
pub fn build_nf_ranges(nfs: &[Fp]) -> (leaves: Vec<Fp>)
    ensures
        values(leaves@) == nf_ranges(values(nfs@)),
        in_field(values(nfs@)),
{
    let zero = Fp::zero();
    let one = Fp::one();
    let mut prev = zero;
    let mut leaves: Vec<Fp> = Vec::new();
    let mut k: usize = 0;
    assert(values(leaves@) =~= ranges_upto(values(nfs@), 0));
    while k < nfs.len()
        invariant
            k <= nfs.len(),
            one@ == 1,
            zero@ == 0,
            prev@ == next_start(values(nfs@), k as nat),
            values(leaves@) == ranges_upto(values(nfs@), k as nat),
            forall|i: int| 0 <= i < k ==> (#[trigger] values(nfs@)[i]) < modulus(),
        decreases nfs.len() - k,
    {
        let r = nfs[k];
        let ghost before = values(leaves@);
        proof {
            use_type_invariant(&r);
            assert(values(nfs@)[k as int] == r@);
        }
        if prev.is_below(&r) {
            let b = r.minus(&one);
            proof {
                lemma_small_mod((r@ - 1) as nat, modulus());
            }
            leaves.push(prev);
            leaves.push(b);
            assert(values(leaves@) =~= before.push(prev@).push(b@));
        }
        prev = r.plus(&one);
        k += 1;
    }
    if zero.is_below(&prev) {
        let ghost before = values(leaves@);
        let last = one.negated();
        proof {
            lemma_small_mod((modulus() - 1) as nat, modulus());
        }
        leaves.push(prev);
        leaves.push(last);
        assert(values(leaves@) =~= before.push(prev@).push(last@));
    }
    leaves
}

/// Finds the range of unused values that `nf` lies in.
///
/// Returns the even position of the leaf that starts the range, and that leaf.
/// Fails with `DoubleNullifier`, naming `nf` in hex, where no range holds it:
/// the nullifier is used. Fails with `OutOfRange` where the position does not
/// fit in 32 bits.
pub fn find_nf_range(leaves: &[Fp], nf: &Fp) -> (r: Result<(u32, Fp), VoteError>)
    ensures
        match r {
            Ok((position, start)) => {
                &&& holds(values(leaves@), position as int, nf@)
                &&& start == leaves[position as int]
            },
            Err(VoteError::OutOfRange(i)) => {
                &&& holds(values(leaves@), i as int, nf@)
                &&& i > u32::MAX
            },
            Err(VoteError::DoubleNullifier(s)) => {
                &&& s@ == hex_of(nf.encoding())
                &&& is_range_list(values(leaves@)) ==> forall|i: int|
                    !holds(values(leaves@), i, nf@)
            },
            Err(_) => false,
        },
{
    let ghost l = values(leaves@);
    let ghost v = nf@;
    let pairs: usize = leaves.len() / 2;
    let mut lo: usize = 0;
    let mut hi: usize = pairs;
    while lo < hi
        invariant
            l == values(leaves@),
            v == nf@,
            pairs == leaves.len() / 2,
            lo <= hi <= pairs,
            is_range_list(l) ==> forall|i: int|
                0 <= i < 2 * lo && i % 2 == 0 ==> (#[trigger] l[i]) <= v,
            is_range_list(l) ==> forall|i: int|
                2 * hi <= i < 2 * pairs && i % 2 == 0 ==> (#[trigger] l[i]) > v,
        decreases hi - lo,
    {
        let mid = lo + (hi - lo) / 2;
        let a = leaves[2 * mid];
        assert(l[2 * mid] == a@);
        if nf.is_below(&a) {
            hi = mid;
        } else {
            lo = mid + 1;
        }
    }
    if lo > 0 {
        let at = 2 * (lo - 1);
        let a = leaves[at];
        let b = leaves[at + 1];
        assert(l[at as int] == a@ && l[at + 1] == b@);
        if !nf.is_below(&a) && !b.is_below(nf) {
            if at > u32::MAX as usize {
                return Err(VoteError::OutOfRange(at));
            }
            return Ok((at as u32, a));
        }
        proof {
            if is_range_list(l) {
                assert(l[2 * (lo - 1)] <= v);
                assert forall|i: int| !holds(l, i, v) by {
                    if holds(l, i, v) {
                        if i >= 2 * hi {
                            assert(l[i] > v);
                        } else if i < at {
                            assert(l[i + 1] < l[i + 2]);
                            assert(l[i + 2] <= l[at as int]);
                        }
                    }
                }
            }
        }
    } else {
        proof {
            if is_range_list(l) {
                assert forall|i: int| !holds(l, i, v) by {
                    if holds(l, i, v) {
                        assert(l[i] > v);
                    }
                }
            }
        }
    }
    let bytes = nf.to_bytes();
    Err(VoteError::DoubleNullifier(hex_string(&bytes)))
}


/// Puts the nullifiers of a snapshot in ascending order, as the range tree
/// needs them.
///
/// Fails with `DoubleNullifier`, naming the first nullifier that occurs twice:
/// no nullifier occurs twice on the chain, so the snapshot is corrupt. The
/// nullifiers are sorted then too.
pub fn sort_nullifiers(nfs: &mut Vec<Fp>) -> (r: Result<(), VoteError>)
    ensures
        values(final(nfs)@).to_multiset() == values(old(nfs)@).to_multiset(),
        r.is_ok() <==> ascending(values(final(nfs)@)),
        r.is_err() ==> exists|k: int|
            {
                &&& 0 < k < final(nfs)@.len()
                &&& values(final(nfs)@)[k - 1] == #[trigger] values(final(nfs)@)[k]
                &&& ascending(values(final(nfs)@).take(k))
                &&& r.unwrap_err() matches VoteError::DoubleNullifier(s) && s@ == hex_of(
                    final(nfs)@[k].encoding(),
                )
            },
{
    sort_elements(nfs);
    let ghost v = values(nfs@);
    let mut k: usize = 1;
    while k < nfs.len()
        invariant
            1 <= k,
            v == values(nfs@),
            values(nfs@).to_multiset() == values(old(nfs)@).to_multiset(),
            forall|i: int, j: int| 0 <= i <= j < v.len() ==> v[i] <= v[j],
            forall|i: int, j: int| 0 <= i < j < k && j < v.len() ==> v[i] < v[j],
        decreases nfs.len() - k,
    {
        let a = nfs[k - 1];
        let b = nfs[k];
        assert(v[k - 1] == a@ && v[k as int] == b@);
        if !a.is_below(&b) {
            assert(v[k - 1] <= v[k as int]);
            assert(ascending(v.take(k as int)));
            let bytes = b.to_bytes();
            return Err(VoteError::DoubleNullifier(hex_string(&bytes)));
        }
        assert forall|i: int, j: int| 0 <= i < j < k + 1 && j < v.len() implies v[i] < v[j] by {
            if j == k && i < k - 1 {
                assert(v[i] < v[k - 1]);
            }
        }
        k += 1;
    }
    Ok(())
}

/// Finds, among the ranges that the nullifiers of a snapshot leave unused,
/// the one that holds `nf`; `nfs` are the snapshot's nullifiers in ascending
/// order.
///
/// Where they ascend strictly, the search fails with `DoubleNullifier` exactly
/// if `nf` is one of them, or if there are none.
pub fn locate_nullifier(nfs: &[Fp], nf: &Fp) -> (r: Result<(u32, Fp), VoteError>)
    ensures
        match r {
            Ok((position, start)) => {
                &&& holds(nf_ranges(values(nfs@)), position as int, nf@)
                &&& start@ == nf_ranges(values(nfs@))[position as int]
            },
            Err(VoteError::OutOfRange(i)) => {
                &&& holds(nf_ranges(values(nfs@)), i as int, nf@)
                &&& i > u32::MAX
            },
            Err(VoteError::DoubleNullifier(s)) => {
                &&& s@ == hex_of(nf.encoding())
                &&& ascending(values(nfs@)) ==> nfs@.len() == 0 || values(nfs@).contains(nf@)
            },
            Err(_) => false,
        },
        ascending(values(nfs@)) && values(nfs@).contains(nf@) ==> r matches Err(
            VoteError::DoubleNullifier(_),
        ),
{
    let leaves = build_nf_ranges(nfs);
    let r = find_nf_range(leaves.as_slice(), nf);
    proof {
        let used = values(nfs@);
        use_type_invariant(nf);
        if ascending(used) {
            lemma_ranges_well_formed(used);
            if used.contains(nf@) {
                match r {
                    Ok((position, _)) => {
                        lemma_used_is_in_no_range(used, nf@, position as int);
                    },
                    Err(VoteError::OutOfRange(i)) => {
                        lemma_used_is_in_no_range(used, nf@, i as int);
                    },
                    _ => {},
                }
            } else if used.len() > 0 {
                lemma_unused_is_in_a_range(used, nf@);
            }
        }
        match r {
            Ok((position, start)) => {
                assert(values(leaves@)[position as int] == start@);
            },
            _ => {},
        }
    }
    r
}

/// The last leaf of a tree with its Merkle path: what is needed to go on
/// appending leaves.
pub struct Frontier {
    pub position: u32,
    pub leaf: Fp,
    pub ommers: Vec<Fp>,
}

/// The anchor of the nullifier-range tree of a snapshot whose nullifiers are
/// given in ascending order.
pub fn compute_nf_root(nfs: &[Fp]) -> (root: Fp)
    ensures
        root@ == tree_root(no_frontier(), nf_ranges(values(nfs@))),
{
    let leaves = build_nf_ranges(nfs);
    let ph = PreviousHashes::new();
    let none: Vec<u32> = Vec::new();
    match calculate_merkle_paths(&ph, none.as_slice(), leaves.as_slice()) {
        Ok((root, _)) => root,
        Err(_) => {
            assert(false);
            Fp::zero()
        },
    }
}

/// The anchor of the note-commitment tree over the commitments of a snapshot
/// in their order, and the frontier at the last of them, if there is one.
///
/// Fails with `OutOfRange` where the last position does not fit in 32 bits.
pub fn compute_cmx_root(cmxs: &[Fp]) -> (r: Result<(Fp, Option<Frontier>), VoteError>)
    ensures
        match r {
            Ok((root, frontier)) => {
                &&& cmxs.len() <= 0x1_0000_0000
                &&& root@ == tree_root(no_frontier(), values(cmxs@))
                &&& cmxs.len() == 0 ==> frontier.is_none()
                &&& cmxs.len() > 0 ==> frontier.is_some() && {
                    let f = frontier.unwrap();
                    &&& f.position == cmxs.len() - 1
                    &&& f.leaf == cmxs[cmxs.len() - 1]
                    &&& is_path_of(
                        values(f.ommers@),
                        no_frontier(),
                        values(cmxs@),
                        (cmxs.len() - 1) as nat,
                    )
                }
            },
            Err(e) => cmxs.len() > 0x1_0000_0000 && e == VoteError::OutOfRange(
                (cmxs.len() - 1) as usize,
            ),
        },
{
    let ph = PreviousHashes::new();
    let mut wanted: Vec<u32> = Vec::new();
    if cmxs.len() > 0 {
        let end_position = cmxs.len() - 1;
        if end_position > u32::MAX as usize {
            return Err(VoteError::OutOfRange(end_position));
        }
        wanted.push(end_position as u32);
    }
    match calculate_merkle_paths(&ph, wanted.as_slice(), cmxs) {
        Ok((root, paths)) => {
            if cmxs.len() == 0 {
                Ok((root, None))
            } else {
                let mp: MerklePath = paths[0];
                let mut ommers: Vec<Fp> = Vec::new();
                let mut k: usize = 0;
                while k < 32
                    invariant
                        k <= 32,
                        mp.path@.len() == 32,
                        ommers.len() == k,
                        forall|i: int| 0 <= i < k ==> ommers[i] == mp.path@[i],
                    decreases 32 - k,
                {
                    ommers.push(mp.path[k]);
                    k += 1;
                }
                assert(values(ommers@) =~= values(mp.path@));
                Ok((root, Some(Frontier { position: mp.position, leaf: mp.value, ommers })))
            }
        },
        Err(_) => {
            assert(false);
            Err(VoteError::OutOfRange(0))
        },
    }
}

/// Completes the commitments of a snapshot to an even count: appends the
/// empty leaf where their number is odd.
pub fn pad_cmxs(cmxs: &mut Vec<Fp>)
    ensures
        old(cmxs).len() % 2 == 0 ==> final(cmxs)@ == old(cmxs)@,
        old(cmxs).len() % 2 == 1 ==> final(cmxs)@.len() == old(cmxs).len() + 1,
        old(cmxs).len() % 2 == 1 ==> final(cmxs)@.take(old(cmxs).len() as int) == old(cmxs)@,
        old(cmxs).len() % 2 == 1 ==> final(cmxs)@.last()@ == empty_hash(0),
{
    if cmxs.len() % 2 == 1 {
        let ghost before = cmxs@;
        cmxs.push(empty_hash_at(0));
        assert(cmxs@.take(before.len() as int) =~= before);
    }
}


/// Whether the nullifiers ascend strictly: whether they are sorted and none
/// occurs twice.
pub fn is_ascending(nfs: &[Fp]) -> (r: bool)
    ensures
        r == ascending(values(nfs@)),
{
    let ghost v = values(nfs@);
    let mut k: usize = 1;
    while k < nfs.len()
        invariant
            1 <= k,
            v == values(nfs@),
            forall|i: int, j: int| 0 <= i < j < k && j < v.len() ==> v[i] < v[j],
        decreases nfs.len() - k,
    {
        let a = nfs[k - 1];
        let b = nfs[k];
        assert(v[k - 1] == a@ && v[k as int] == b@);
        if !a.is_below(&b) {
            return false;
        }
        assert forall|i: int, j: int| 0 <= i < j < k + 1 && j < v.len() implies v[i] < v[j] by {
            if j == k && i < k - 1 {
                assert(v[i] < v[k - 1]);
            }
        }
        k += 1;
    }
    true
}

/// Appending a range that starts after every leaf keeps the leaves well
/// formed, keeps what the earlier ranges hold, and adds what the new range
/// holds.
proof fn lemma_append_range(before: Seq<nat>, a: nat, b: nat)
    requires
        is_range_list(before),
        a <= b,
        forall|i: int| 0 <= i < before.len() ==> (#[trigger] before[i]) < a,
    ensures
        is_range_list(before.push(a).push(b)),
        forall|i: int, v: nat| #[trigger]
            holds(before.push(a).push(b), i, v) <==> holds(before, i, v) || (i == before.len() && a
                <= v <= b),
{
    let now = before.push(a).push(b);
    let n = before.len() as int;
    assert(now[n] == a && now[n + 1] == b);
    assert forall|i: int| 0 <= i < n implies now[i] == before[i] && now[i] < a by {}
    assert forall|i: int, j: int| 0 <= i <= j < now.len() implies now[i] <= now[j] by {
        if j < n {
            assert(before[i] <= before[j]);
        }
    }
    assert forall|i: int, j: int|
        0 <= i && i % 2 == 1 && j == i + 1 && j < now.len() implies (#[trigger] now[i])
        < #[trigger] now[j] by {
        if j < n {
            assert(before[i] < before[j]);
        }
    }
}

/// Just after a nullifier that is not the largest field element starts the
/// next range; after the largest the start wraps to zero.
proof fn lemma_next_start(nfs: Seq<nat>, k: nat)
    requires
        in_field(nfs),
        0 < k <= nfs.len(),
    ensures
        nfs[k - 1] + 1 < modulus() ==> next_start(nfs, k) == nfs[k - 1] + 1,
        nfs[k - 1] + 1 == modulus() ==> next_start(nfs, k) == 0,
{
    if nfs[k - 1] + 1 < modulus() {
        lemma_small_mod(nfs[k - 1] + 1, modulus());
    } else {
        lemma_mod_self_0(modulus() as int);
    }
}

/// The ranges that the first `k` of a strictly ascending sequence of
/// nullifiers give are well formed and end before the `k`-th nullifier.
proof fn lemma_prefix_shape(nfs: Seq<nat>, k: nat)
    requires
        ascending(nfs),
        in_field(nfs),
        k <= nfs.len(),
    ensures
        is_range_list(ranges_upto(nfs, k)),
        k == 0 ==> ranges_upto(nfs, k).len() == 0,
        k > 0 ==> forall|i: int|
            0 <= i < ranges_upto(nfs, k).len() ==> (#[trigger] ranges_upto(nfs, k)[i]) < nfs[k
                - 1],
        k > 1 ==> next_start(nfs, (k - 1) as nat) == nfs[k - 2] + 1,
        k > 0 && next_start(nfs, (k - 1) as nat) < nfs[k - 1] ==> ranges_upto(nfs, k)
            == ranges_upto(nfs, (k - 1) as nat).push(next_start(nfs, (k - 1) as nat)).push(
            (nfs[k - 1] - 1) as nat,
        ) && forall|i: int|
            0 <= i < ranges_upto(nfs, (k - 1) as nat).len() ==> (#[trigger] ranges_upto(
                nfs,
                (k - 1) as nat,
            )[i]) < next_start(nfs, (k - 1) as nat),
    decreases k,
{
    if k > 0 {
        let before = ranges_upto(nfs, (k - 1) as nat);
        let now = ranges_upto(nfs, k);
        let a = next_start(nfs, (k - 1) as nat);
        let nf = nfs[k - 1];
        lemma_prefix_shape(nfs, (k - 1) as nat);
        if k > 1 {
            assert(nfs[k - 2] < nfs[k - 1]);
            lemma_next_start(nfs, (k - 1) as nat);
        }
        if a < nf {
            let n = before.len() as int;
            lemma_append_range(before, a, (nf - 1) as nat);
            assert forall|i: int| 0 <= i < now.len() implies (#[trigger] now[i]) < nf by {
                if i < n {
                    assert(now[i] == before[i]);
                }
            }
        }
    }
}

/// The ranges that the first `k` nullifiers give hold every value below the
/// `k`-th nullifier that is no nullifier.
proof fn lemma_prefix_covers(nfs: Seq<nat>, k: nat, v: nat)
    requires
        ascending(nfs),
        in_field(nfs),
        0 < k <= nfs.len(),
        v < nfs[k - 1],
        !nfs.contains(v),
    ensures
        exists|i: int| holds(ranges_upto(nfs, k), i, v),
    decreases k,
{
    let before = ranges_upto(nfs, (k - 1) as nat);
    let now = ranges_upto(nfs, k);
    let a = next_start(nfs, (k - 1) as nat);
    lemma_prefix_shape(nfs, k);
    lemma_prefix_shape(nfs, (k - 1) as nat);
    if k > 1 {
        assert(nfs.contains(nfs[k - 2]));
    }
    if a < nfs[k - 1] {
        lemma_append_range(before, a, (nfs[k - 1] - 1) as nat);
        if k > 1 && v < nfs[k - 2] {
            lemma_prefix_covers(nfs, (k - 1) as nat, v);
            let i = choose|i: int| holds(before, i, v);
            assert(holds(now, i, v));
        } else {
            assert(holds(now, before.len() as int, v));
        }
    } else {
        lemma_prefix_covers(nfs, (k - 1) as nat, v);
    }
}

/// The ranges that the first `k` nullifiers give hold no nullifier.
proof fn lemma_prefix_excludes(nfs: Seq<nat>, k: nat, i: int, j: int)
    requires
        ascending(nfs),
        in_field(nfs),
        k <= nfs.len(),
        0 <= j < nfs.len(),
    ensures
        !holds(ranges_upto(nfs, k), i, nfs[j]),
    decreases k,
{
    if k > 0 {
        let before = ranges_upto(nfs, (k - 1) as nat);
        let a = next_start(nfs, (k - 1) as nat);
        lemma_prefix_shape(nfs, k);
        lemma_prefix_shape(nfs, (k - 1) as nat);
        lemma_prefix_excludes(nfs, (k - 1) as nat, i, j);
        if a < nfs[k - 1] {
            lemma_append_range(before, a, (nfs[k - 1] - 1) as nat);
            if j < k - 2 {
                assert(nfs[j] < nfs[k - 2]);
            } else if j > k - 1 {
                assert(nfs[k - 1] < nfs[j]);
            }
        }
    }
}

/// The ranges built from strictly ascending nullifiers are well formed:
/// ascending, and with a gap between each range and the next.
pub proof fn lemma_ranges_well_formed(nfs: Seq<nat>)
    requires
        ascending(nfs),
        in_field(nfs),
    ensures
        is_range_list(nf_ranges(nfs)),
{
    let k = nfs.len();
    lemma_prefix_shape(nfs, k);
    if next_start(nfs, k) != 0 {
        lemma_next_start(nfs, k);
        lemma_append_range(ranges_upto(nfs, k), next_start(nfs, k), (modulus() - 1) as nat);
    }
}

/// Every field element that is no nullifier of a snapshot with at least one
/// nullifier lies in one of the ranges.
pub proof fn lemma_unused_is_in_a_range(nfs: Seq<nat>, v: nat)
    requires
        ascending(nfs),
        in_field(nfs),
        nfs.len() > 0,
        v < modulus(),
        !nfs.contains(v),
    ensures
        exists|i: int| holds(nf_ranges(nfs), i, v),
{
    let k = nfs.len();
    let before = ranges_upto(nfs, k);
    let now = nf_ranges(nfs);
    let a = next_start(nfs, k);
    lemma_prefix_shape(nfs, k);
    lemma_next_start(nfs, k);
    assert(nfs.contains(nfs[k - 1]));
    if a != 0 {
        lemma_append_range(before, a, (modulus() - 1) as nat);
    }
    if v < nfs[k - 1] {
        lemma_prefix_covers(nfs, k, v);
        let i = choose|i: int| holds(before, i, v);
        assert(holds(now, i, v));
    } else {
        assert(holds(now, before.len() as int, v));
    }
}

/// No nullifier of the snapshot lies in any of the ranges.
pub proof fn lemma_used_is_in_no_range(nfs: Seq<nat>, v: nat, i: int)
    requires
        ascending(nfs),
        in_field(nfs),
        nfs.contains(v),
    ensures
        !holds(nf_ranges(nfs), i, v),
{
    let k = nfs.len();
    let before = ranges_upto(nfs, k);
    let a = next_start(nfs, k);
    lemma_prefix_shape(nfs, k);
    let j = choose|j: int| 0 <= j < nfs.len() && nfs[j] == v;
    lemma_prefix_excludes(nfs, k, i, j);
    if a != 0 {
        lemma_next_start(nfs, k);
        lemma_append_range(before, a, (modulus() - 1) as nat);
        if j < k - 1 {
            assert(nfs[j] < nfs[k - 1]);
        }
    }
}

} // verus!
