use crate::ballot::{
    all_well_formed, sighash_personal, Ballot, BallotAction, BallotData, BallotWitnesses,
    VoteProof, VoteSignature,
};
use crate::bytes::hex_of;
use crate::election::Election;
use crate::errors::VoteError;
use crate::field::{le_nat, lemma_le_nat_injective, lemma_le_nat_zeros, values, Fp};
use crate::hash::blake2b_256_of;
use crate::path::{calculate_merkle_paths, in_slice, no_frontier, tree_root, MerklePath};
use crate::prevhash::PreviousHashes;
use crate::signature::{
    add_trapdoors, binding_verification_key, binding_vk_of, scalar_modulus, sign_binding,
    sign_spend_auth, spend_auth_verifies, spend_verification_key, spend_vk_of,
};
use crate::trees::{build_nf_ranges, find_nf_range, holds, is_range_list, nf_ranges};
use crate::validation::{
    all_true, anchors_ok, binding_ok, cv_total, shaped, sighash_of, spend_auth_ok, spend_auth_upto,
    sum_commitments, to_hash, verdict, Verdict,
};
use vstd::arithmetic::div_mod::{lemma_add_mod_noop, lemma_small_mod};
use vstd::prelude::*;

verus! {

/// An input note of a ballot: its value, its nullifier, its position among the
/// commitments of the snapshot and, once located, the range of unused
/// nullifiers that its nullifier lies in.
#[derive(Clone, Copy, Debug)]
pub struct NotePosition {
    pub value: u64,
    pub nf: Fp,
    pub position: u32,
    pub nf_start_range: Fp,
    pub nf_position: u32,
}

/// What the proofs of a ballot's actions are built on: both anchors and, for
/// each input note, the path of its commitment and the path of its range.
pub struct NoteWitnesses {
    pub cmx_root: Fp,
    pub nf_root: Fp,
    pub cmx_paths: Vec<MerklePath>,
    pub nf_paths: Vec<MerklePath>,
}

/// The sum of the values.
pub open spec fn total(values: Seq<u64>) -> nat
    decreases values.len(),
{
    if values.len() == 0 {
        0
    } else {
        total(values.drop_last()) + values.last() as nat
    }
}

/// The sum of at most `2^64` values, each below `2^64`.
fn sum_values(values: &[u64]) -> (s: u128)
    ensures
        s as nat == total(values@),
{
    let mut s: u128 = 0;
    let mut i: usize = 0;
    assert(values@.take(0) =~= Seq::<u64>::empty());
    while i < values.len()
        invariant
            i <= values.len(),
            s as nat == total(values@.take(i as int)),
            s <= i * 0xffff_ffff_ffff_ffff,
        decreases values.len() - i,
    {
        assert(values@.take(i + 1).drop_last() =~= values@.take(i as int));
        assert(i * 0xffff_ffff_ffff_ffff + 0xffff_ffff_ffff_ffff <= 0xffff_ffff_ffff_ffff
            * 0x1_0000_0000_0000_0000) by (nonlinear_arith)
            requires
                i < 0x1_0000_0000_0000_0000,
        ;
        assert((i + 1) * 0xffff_ffff_ffff_ffff == i * 0xffff_ffff_ffff_ffff
            + 0xffff_ffff_ffff_ffff) by (nonlinear_arith);
        s = s + values[i] as u128;
        i += 1;
    }
    assert(values@.take(i as int) =~= values@);
    s
}

/// Checks that the notes' values pay for the votes: that both sums are equal.
pub fn check_balance(values: &[u64], weights: &[u64]) -> (r: Result<(), VoteError>)
    ensures
        r.is_ok() <==> total(values@) == total(weights@),
        r.is_err() ==> (r.unwrap_err() matches VoteError::InvalidBallot(msg) && msg@
            == "Notes do not match Votes"@),
{
    if sum_values(values) == sum_values(weights) {
        Ok(())
    } else {
        Err(VoteError::InvalidBallot("Notes do not match Votes".to_owned()))
    }
}

/// The candidates that get votes: the positions of the weights that are not
/// zero, in ascending order.
pub open spec fn voted(weights: Seq<u64>) -> Seq<usize>
    decreases weights.len(),
{
    if weights.len() == 0 {
        Seq::empty()
    } else if weights.last() > 0 {
        voted(weights.drop_last()).push((weights.len() - 1) as usize)
    } else {
        voted(weights.drop_last())
    }
}

/// What one action of a ballot spends and pays: an input note or none, a
/// candidate or none, and the value of each, zero where there is none.
#[derive(Clone, Copy, Debug, PartialEq, Eq)]
pub struct ActionPlan {
    pub input: Option<usize>,
    pub candidate: Option<usize>,
    pub spent: u64,
    pub received: u64,
}

/// The action at `i` of the plan for the notes' values and the candidates'
/// weights: the `i`-th note, where there is one, beside the `i`-th candidate
/// that gets votes, where there is one.
pub open spec fn planned(values: Seq<u64>, weights: Seq<u64>, i: int) -> ActionPlan {
    let outs = voted(weights);
    ActionPlan {
        input: if i < values.len() {
            Some(i as usize)
        } else {
            None
        },
        candidate: if i < outs.len() {
            Some(outs[i])
        } else {
            None
        },
        spent: if i < values.len() {
            values[i]
        } else {
            0
        },
        received: if i < outs.len() {
            weights[outs[i] as int]
        } else {
            0
        },
    }
}

/// The positions of the weights that are not zero.
fn voted_candidates(weights: &[u64]) -> (outs: Vec<usize>)
    ensures
        outs@ == voted(weights@),
        forall|i: int| 0 <= i < outs@.len() ==> (#[trigger] outs@[i]) < weights@.len(),
{
    let mut outs: Vec<usize> = Vec::new();
    let mut k: usize = 0;
    assert(weights@.take(0) =~= Seq::<u64>::empty());
    while k < weights.len()
        invariant
            k <= weights.len(),
            outs@ == voted(weights@.take(k as int)),
            forall|i: int| 0 <= i < outs@.len() ==> (#[trigger] outs@[i]) < k,
        decreases weights.len() - k,
    {
        assert(weights@.take(k + 1).drop_last() =~= weights@.take(k as int));
        if weights[k] > 0 {
            outs.push(k);
        }
        k += 1;
    }
    assert(weights@.take(k as int) =~= weights@);
    outs
}

/// Plans the actions of a ballot: pairs the input notes, in their order, with
/// the candidates that get votes, in theirs, and fills the shorter side with
/// actions that spend or pay nothing.
///
/// Fails with `InvalidBallot` where the notes' values do not pay for the
/// weights.
pub fn plan_actions(values: &[u64], weights: &[u64]) -> (r: Result<Vec<ActionPlan>, VoteError>)
    ensures
        r.is_ok() <==> total(values@) == total(weights@),
        r.is_err() ==> (r.unwrap_err() matches VoteError::InvalidBallot(msg) && msg@
            == "Notes do not match Votes"@),
        r.is_ok() ==> {
            let plan = r.unwrap()@;
            &&& plan.len() == if values@.len() >= voted(weights@).len() {
                values@.len()
            } else {
                voted(weights@).len()
            }
            &&& forall|i: int|
                0 <= i < plan.len() ==> (#[trigger] plan[i]) == planned(values@, weights@, i)
        },
{
    match check_balance(values, weights) {
        Ok(_) => {},
        Err(e) => {
            return Err(e);
        },
    }
    let outs = voted_candidates(weights);
    let n = if values.len() >= outs.len() {
        values.len()
    } else {
        outs.len()
    };
    let mut plan: Vec<ActionPlan> = Vec::new();
    let mut i: usize = 0;
    while i < n
        invariant
            i <= n,
            n == if values@.len() >= outs@.len() {
                values@.len()
            } else {
                outs@.len()
            },
            outs@ == voted(weights@),
            forall|k: int| 0 <= k < outs@.len() ==> (#[trigger] outs@[k]) < weights@.len(),
            plan@.len() == i,
            forall|k: int| 0 <= k < i ==> (#[trigger] plan@[k]) == planned(values@, weights@, k),
        decreases n - i,
    {
        let (input, spent) = if i < values.len() {
            (Some(i), values[i])
        } else {
            (None, 0)
        };
        let (candidate, received) = if i < outs.len() {
            (Some(outs[i]), weights[outs[i]])
        } else {
            (None, 0)
        };
        plan.push(ActionPlan { input, candidate, spent, received });
        i += 1;
    }
    Ok(plan)
}

/// What the actions spend in all.
pub open spec fn spent_total(plan: Seq<ActionPlan>) -> nat
    decreases plan.len(),
{
    if plan.len() == 0 {
        0
    } else {
        spent_total(plan.drop_last()) + plan.last().spent as nat
    }
}

/// What the actions pay in all.
pub open spec fn received_total(plan: Seq<ActionPlan>) -> nat
    decreases plan.len(),
{
    if plan.len() == 0 {
        0
    } else {
        received_total(plan.drop_last()) + plan.last().received as nat
    }
}

/// The sum of the weights at the given positions.
pub open spec fn weight_at(weights: Seq<u64>, at: Seq<usize>) -> nat
    decreases at.len(),
{
    if at.len() == 0 {
        0
    } else {
        weight_at(weights, at.drop_last()) + weights[at.last() as int] as nat
    }
}

/// The candidates that get votes are candidates, and they get all the votes:
/// the weights at their positions sum to the sum of all weights.
pub proof fn lemma_voted_total(weights: Seq<u64>)
    requires
        weights.len() <= usize::MAX,
    ensures
        forall|i: int| 0 <= i < voted(weights).len() ==> (#[trigger] voted(weights)[i]) < weights.len(),
        weight_at(weights, voted(weights)) == total(weights),
    decreases weights.len(),
{
    if weights.len() > 0 {
        let before = weights.drop_last();
        lemma_voted_total(before);
        lemma_weight_at_longer(before, weights, voted(before));
        if weights.last() > 0 {
            let now = voted(weights);
            assert(now == voted(before).push((weights.len() - 1) as usize));
            assert(now.drop_last() =~= voted(before));
            assert(now.last() == (weights.len() - 1) as usize);
            assert(weights[now.last() as int] == weights.last());
            assert(weight_at(weights, now) == weight_at(weights, voted(before)) + weights.last() as nat);
        } else {
            assert(weights.last() == 0);
            assert(voted(weights) == voted(before));
        }
        assert(total(weights) == total(before) + weights.last() as nat);
    }
}

/// The sum of the weights at positions of `shorter` is the same in a sequence
/// that goes on after it.
proof fn lemma_weight_at_longer(shorter: Seq<u64>, longer: Seq<u64>, at: Seq<usize>)
    requires
        shorter.len() <= longer.len(),
        forall|i: int| 0 <= i < shorter.len() ==> shorter[i] == longer[i],
        forall|i: int| 0 <= i < at.len() ==> (#[trigger] at[i]) < shorter.len(),
    ensures
        weight_at(shorter, at) == weight_at(longer, at),
    decreases at.len(),
{
    if at.len() > 0 {
        lemma_weight_at_longer(shorter, longer, at.drop_last());
        assert(at.last() == at[at.len() - 1]);
    }
}

/// What the first `k` actions of a plan spend and pay: the values of the
/// first `k` notes and the weights of the first `k` candidates that get votes,
/// as far as there are that many.
proof fn lemma_plan_prefix(values: Seq<u64>, weights: Seq<u64>, plan: Seq<ActionPlan>, k: nat)
    requires
        k <= plan.len(),
        forall|i: int| 0 <= i < plan.len() ==> (#[trigger] plan[i]) == planned(values, weights, i),
    ensures
        spent_total(plan.take(k as int)) == total(
            values.take(
                if k <= values.len() {
                    k as int
                } else {
                    values.len() as int
                },
            ),
        ),
        received_total(plan.take(k as int)) == weight_at(
            weights,
            voted(weights).take(
                if k <= voted(weights).len() {
                    k as int
                } else {
                    voted(weights).len() as int
                },
            ),
        ),
    decreases k,
{
    let outs = voted(weights);
    if k > 0 {
        lemma_plan_prefix(values, weights, plan, (k - 1) as nat);
        assert(plan.take(k as int).drop_last() =~= plan.take(k - 1));
        assert(plan.take(k as int).last() == plan[k - 1]);
        if k <= values.len() {
            assert(values.take(k as int).drop_last() =~= values.take(k - 1));
        }
        if k <= outs.len() {
            assert(outs.take(k as int).drop_last() =~= outs.take(k - 1));
        }
    }
}

/// The plan keeps the balance: its actions spend in all what the notes are
/// worth and pay in all what the weights demand.
pub proof fn lemma_plan_balances(values: Seq<u64>, weights: Seq<u64>, plan: Seq<ActionPlan>)
    requires
        weights.len() <= usize::MAX,
        plan.len() >= values.len(),
        plan.len() >= voted(weights).len(),
        forall|i: int| 0 <= i < plan.len() ==> (#[trigger] plan[i]) == planned(values, weights, i),
    ensures
        spent_total(plan) == total(values),
        received_total(plan) == total(weights),
{
    lemma_plan_prefix(values, weights, plan, plan.len());
    lemma_voted_total(weights);
    assert(plan.take(plan.len() as int) =~= plan);
    assert(values.take(values.len() as int) =~= values);
    assert(voted(weights).take(voted(weights).len() as int) =~= voted(weights));
}

/// Whether `after` is `before` with each note located in the range of
/// `leaves` that holds its nullifier.
pub open spec fn located(before: Seq<NotePosition>, after: Seq<NotePosition>, leaves: Seq<nat>, n: int) -> bool {
    forall|j: int|
        0 <= j < n ==> {
            &&& (#[trigger] after[j]).value == before[j].value
            &&& after[j].nf == before[j].nf
            &&& after[j].position == before[j].position
            &&& holds(leaves, after[j].nf_position as int, before[j].nf@)
            &&& after[j].nf_start_range@ == leaves[after[j].nf_position as int]
        }
}

/// Whether `e` is how the search for the range of the nullifier `nf` fails.
pub open spec fn not_located(e: VoteError, leaves: Seq<nat>, nf: Fp) -> bool {
    match e {
        VoteError::OutOfRange(i) => holds(leaves, i as int, nf@) && i > u32::MAX,
        VoteError::DoubleNullifier(s) => {
            &&& s@ == hex_of(nf.encoding())
            &&& is_range_list(leaves) ==> forall|i: int| !holds(leaves, i, nf@)
        },
        _ => false,
    }
}

/// Locates each note in the range of unused nullifiers that holds its
/// nullifier, and records where the range starts. Stops at the first note
/// whose nullifier lies in no range.
pub fn locate_notes(notes: &mut Vec<NotePosition>, leaves: &[Fp]) -> (r: Result<(), VoteError>)
    ensures
        final(notes)@.len() == old(notes)@.len(),
        match r {
            Ok(_) => located(
                old(notes)@,
                final(notes)@,
                values(leaves@),
                old(notes)@.len() as int,
            ),
            Err(e) => exists|j: int|
                {
                    &&& 0 <= j < old(notes)@.len()
                    &&& located(old(notes)@, final(notes)@, values(leaves@), j)
                    &&& not_located(e, values(leaves@), #[trigger] old(notes)@[j].nf)
                },
        },
{
    let ghost before = notes@;
    let mut j: usize = 0;
    while j < notes.len()
        invariant
            j <= notes.len(),
            before == old(notes)@,
            notes@.len() == before.len(),
            located(before, notes@, values(leaves@), j as int),
            forall|k: int| j <= k < before.len() ==> notes@[k] == before[k],
        decreases notes.len() - j,
    {
        let note = notes[j];
        match find_nf_range(leaves, &note.nf) {
            Ok((nf_position, nf_start_range)) => {
                assert(values(leaves@)[nf_position as int] == nf_start_range@);
                notes.set(
                    j,
                    NotePosition {
                        value: note.value,
                        nf: note.nf,
                        position: note.position,
                        nf_start_range,
                        nf_position,
                    },
                );
            },
            Err(e) => {
                assert(not_located(e, values(leaves@), before[j as int].nf));
                return Err(e);
            },
        }
        j += 1;
    }
    Ok(())
}

/// Prepares what the proofs of a ballot need: locates each input note in the
/// nullifier-range tree of the snapshot, and builds the Merkle path of its
/// commitment and of its range, with both anchors.
///
/// `cmxs` are the commitments of the snapshot from position `ph.position()`
/// on, `nfs` its nullifiers in ascending order. Fails with `OutOfRange` on a
/// note whose position is outside the snapshot, and with `DoubleNullifier` on
/// one whose nullifier is used.
pub fn witness_notes(
    ph: &PreviousHashes,
    cmxs: &[Fp],
    nfs: &[Fp],
    notes: &mut Vec<NotePosition>,
) -> (r: Result<NoteWitnesses, VoteError>)
    ensures
        final(notes)@.len() == old(notes)@.len(),
        match r {
            Ok(w) => {
                let leaves = nf_ranges(values(nfs@));
                let n = old(notes)@.len();
                &&& located(old(notes)@, final(notes)@, leaves, n as int)
                &&& w.cmx_root@ == tree_root(ph@, values(cmxs@))
                &&& w.nf_root@ == tree_root(no_frontier(), leaves)
                &&& w.cmx_paths@.len() == n
                &&& w.nf_paths@.len() == n
                &&& forall|j: int|
                    0 <= j < n ==> {
                        &&& in_slice(ph@, values(cmxs@), old(notes)@[j].position)
                        &&& (#[trigger] w.cmx_paths@[j]).position == old(notes)@[j].position
                        &&& w.cmx_paths@[j].value == cmxs@[old(notes)@[j].position
                            - ph.spec_position()]
                        &&& w.cmx_paths@[j].spec_root() == w.cmx_root@
                    }
                &&& forall|j: int|
                    0 <= j < n ==> {
                        &&& (#[trigger] w.nf_paths@[j]).position == final(notes)@[j].nf_position
                        &&& w.nf_paths@[j].value@ == final(notes)@[j].nf_start_range@
                        &&& w.nf_paths@[j].spec_root() == w.nf_root@
                    }
            },
            Err(e) => {
                ||| exists|j: int|
                    {
                        &&& 0 <= j < old(notes)@.len()
                        &&& !in_slice(ph@, values(cmxs@), (#[trigger] old(notes)@[j]).position)
                        &&& forall|i: int|
                            0 <= i < j ==> in_slice(
                                ph@,
                                values(cmxs@),
                                (#[trigger] old(notes)@[i]).position,
                            )
                        &&& e == VoteError::OutOfRange(old(notes)@[j].position as usize)
                    }
                ||| {
                    &&& forall|i: int|
                        0 <= i < old(notes)@.len() ==> in_slice(
                            ph@,
                            values(cmxs@),
                            (#[trigger] old(notes)@[i]).position,
                        )
                    &&& exists|j: int|
                        {
                            &&& 0 <= j < old(notes)@.len()
                            &&& located(old(notes)@, final(notes)@, nf_ranges(values(nfs@)), j)
                            &&& not_located(
                                e,
                                nf_ranges(values(nfs@)),
                                #[trigger] old(notes)@[j].nf,
                            )
                        }
                }
            },
        },
{
    let ghost before = notes@;
    let mut positions: Vec<u32> = Vec::new();
    let mut j: usize = 0;
    while j < notes.len()
        invariant
            j <= notes.len(),
            notes@ == before,
            positions@.len() == j,
            forall|k: int| 0 <= k < j ==> (#[trigger] positions@[k]) == before[k].position,
        decreases notes.len() - j,
    {
        positions.push(notes[j].position);
        j += 1;
    }
    let (cmx_root, cmx_paths) = match calculate_merkle_paths(ph, positions.as_slice(), cmxs) {
        Ok(found) => found,
        Err(e) => {
            proof {
                let j = choose|j: int|
                    {
                        &&& 0 <= j < positions@.len()
                        &&& !in_slice(ph@, values(cmxs@), #[trigger] positions@[j])
                        &&& forall|i: int|
                            0 <= i < j ==> in_slice(ph@, values(cmxs@), #[trigger] positions@[i])
                        &&& e == VoteError::OutOfRange(positions@[j] as usize)
                    };
                assert(positions@[j] == before[j].position);
                assert forall|i: int| 0 <= i < j implies in_slice(
                    ph@,
                    values(cmxs@),
                    (#[trigger] before[i]).position,
                ) by {
                    assert(in_slice(ph@, values(cmxs@), positions@[i]));
                }
            }
            return Err(e);
        },
    };
    assert forall|j: int| 0 <= j < before.len() implies in_slice(
        ph@,
        values(cmxs@),
        (#[trigger] before[j]).position,
    ) by {
        assert(positions@[j] == before[j].position);
    }
    let leaves = build_nf_ranges(nfs);
    match locate_notes(notes, leaves.as_slice()) {
        Ok(_) => {},
        Err(e) => {
            return Err(e);
        },
    }
    let ghost after = notes@;
    let mut nf_positions: Vec<u32> = Vec::new();
    j = 0;
    while j < notes.len()
        invariant
            j <= notes.len(),
            notes@ == after,
            nf_positions@.len() == j,
            forall|k: int| 0 <= k < j ==> (#[trigger] nf_positions@[k]) == after[k].nf_position,
        decreases notes.len() - j,
    {
        nf_positions.push(notes[j].nf_position);
        j += 1;
    }
    let empty = PreviousHashes::new();
    match calculate_merkle_paths(&empty, nf_positions.as_slice(), leaves.as_slice()) {
        Ok((nf_root, nf_paths)) => {
            assert forall|j: int| 0 <= j < before.len() implies {
                &&& (#[trigger] nf_paths@[j]).position == after[j].nf_position
                &&& nf_paths@[j].value@ == after[j].nf_start_range@
                &&& nf_paths@[j].spec_root() == nf_root@
            } by {
                assert(nf_positions@[j] == after[j].nf_position);
                assert(holds(values(leaves@), after[j].nf_position as int, before[j].nf@));
                assert(values(leaves@)[after[j].nf_position as int]
                    == leaves@[after[j].nf_position as int]@);
            }
            Ok(NoteWitnesses { cmx_root, nf_root, cmx_paths, nf_paths })
        },
        Err(e) => {
            proof {
                let k = choose|k: int|
                    0 <= k < nf_positions@.len() && !in_slice(
                        empty@,
                        values(leaves@),
                        #[trigger] nf_positions@[k],
                    );
                assert(holds(values(leaves@), after[k].nf_position as int, before[k].nf@));
                assert(false);
            }
            Err(e)
        },
    }
}


/// Whether every byte string is the canonical encoding of a scalar.
pub open spec fn all_scalars(keys: Seq<[u8; 32]>) -> bool {
    forall|j: int| 0 <= j < keys.len() ==> le_nat((#[trigger] keys[j])@) < scalar_modulus()
}

/// The sum of the numbers that the trapdoors encode.
pub open spec fn trapdoor_total(rcvs: Seq<[u8; 32]>) -> nat
    decreases rcvs.len(),
{
    if rcvs.len() == 0 {
        0
    } else {
        trapdoor_total(rcvs.drop_last()) + le_nat(rcvs.last()@)
    }
}

/// Whether the ballot can be signed at all: it has an action, every part of
/// every action has its length on the wire, and there is one proof, one
/// trapdoor and, where spend authorization keys are given, one key for each
/// action.
pub open spec fn counts_match(
    data: BallotData,
    proofs: Seq<VoteProof>,
    rcvs: Seq<[u8; 32]>,
    spend_keys: Option<Seq<[u8; 32]>>,
) -> bool {
    &&& data.actions@.len() > 0
    &&& all_well_formed(data.actions@)
    &&& proofs.len() == data.actions@.len()
    &&& rcvs.len() == data.actions@.len()
    &&& match spend_keys {
        Some(keys) => keys.len() == data.actions@.len(),
        None => true,
    }
}

/// Whether every trapdoor and every spend authorization key is a scalar.
pub open spec fn keys_valid(rcvs: Seq<[u8; 32]>, spend_keys: Option<Seq<[u8; 32]>>) -> bool {
    &&& all_scalars(rcvs)
    &&& match spend_keys {
        Some(keys) => all_scalars(keys),
        None => true,
    }
}

/// Whether `bsk` is the binding signing key: the 32 bytes that encode the sum
/// of the trapdoors as a scalar.
pub open spec fn is_binding_key(bsk: Seq<u8>, rcvs: Seq<[u8; 32]>) -> bool {
    &&& bsk.len() == 32
    &&& le_nat(bsk) == trapdoor_total(rcvs) % scalar_modulus()
}

/// Whether the value commitments balance under the trapdoors: whether their
/// sum is the verification key of the binding signing key.
pub open spec fn commitments_balance(data: BallotData, rcvs: Seq<[u8; 32]>) -> bool {
    exists|bsk: Seq<u8>|
        {
            &&& #[trigger] is_binding_key(bsk, rcvs)
            &&& binding_vk_of(bsk).is_some()
            &&& cv_total(data.actions@, data.actions@.len()) == Some(binding_vk_of(bsk).unwrap())
        }
}

/// Whether the first `n` actions carry the verification keys of the spend
/// authorization keys.
pub open spec fn keys_match_upto(actions: Seq<BallotAction>, keys: Seq<[u8; 32]>, n: int) -> bool {
    forall|j: int| 0 <= j < n ==> spend_vk_of((#[trigger] keys[j])@) == Some(actions[j].rk@)
}

/// Whether, where spend authorization keys are given, each action carries the
/// verification key of its key.
pub open spec fn keys_match(data: BallotData, spend_keys: Option<Seq<[u8; 32]>>) -> bool {
    match spend_keys {
        Some(keys) => keys_match_upto(data.actions@, keys, keys.len() as int),
        None => true,
    }
}

/// Whether the ballot can be signed so that its signatures verify.
pub open spec fn signable(
    data: BallotData,
    proofs: Seq<VoteProof>,
    rcvs: Seq<[u8; 32]>,
    spend_keys: Option<Seq<[u8; 32]>>,
) -> bool {
    &&& counts_match(data, proofs, rcvs, spend_keys)
    &&& keys_valid(rcvs, spend_keys)
    &&& commitments_balance(data, rcvs)
    &&& keys_match(data, spend_keys)
}

/// The text of the error for what cannot be signed, by the first condition
/// that fails.
pub open spec fn refusal(
    data: BallotData,
    proofs: Seq<VoteProof>,
    rcvs: Seq<[u8; 32]>,
    spend_keys: Option<Seq<[u8; 32]>>,
) -> Seq<char> {
    if !counts_match(data, proofs, rcvs, spend_keys) {
        "Malformed ballot"@
    } else if !keys_valid(rcvs, spend_keys) {
        "Invalid signing key"@
    } else if !commitments_balance(data, rcvs) {
        "Notes do not match Votes"@
    } else {
        "Spend key does not match action"@
    }
}

/// Whether `ballot` is `data` and `proofs` signed: the data and the proofs as
/// given, a binding signature that verifies over the hash of the data under
/// the sum of the value commitments, and, where spend authorization keys are
/// given, for each action a signature that verifies over the same hash under
/// the action's verification key.
pub open spec fn signed(
    ballot: Ballot,
    data: BallotData,
    proofs: Vec<VoteProof>,
    with_spend_auth: bool,
) -> bool {
    &&& ballot.data == data
    &&& ballot.witnesses.proofs == proofs
    &&& ballot.witnesses.binding_signature@.len() == 64
    &&& binding_ok(ballot)
    &&& ballot.witnesses.sp_signatures.is_some() == with_spend_auth
    &&& match ballot.witnesses.sp_signatures {
        Some(sigs) => {
            &&& sigs@.len() == data.actions@.len()
            &&& forall|j: int| 0 <= j < sigs@.len() ==> (#[trigger] sigs@[j]).0@.len() == 64
        },
        None => true,
    }
    &&& spend_auth_ok(ballot)
}

/// The hash that the signatures of the data sign.
pub open spec fn data_sighash(data: BallotData) -> Seq<u8> {
    blake2b_256_of(sighash_personal(), data.encoding())
}

/// The 64 bytes of a signature, as a byte string.
fn signature_bytes(sig: &[u8; 64]) -> (r: Vec<u8>)
    ensures
        r@ == sig@,
{
    let mut r: Vec<u8> = Vec::new();
    let mut i: usize = 0;
    while i < 64
        invariant
            i <= 64,
            r@ == sig@.take(i as int),
        decreases 64 - i,
    {
        r.push(sig[i]);
        assert(r@ =~= sig@.take(i + 1));
        i += 1;
    }
    assert(sig@.take(64) =~= sig@);
    r
}

/// Whether two strings of 32 bytes are equal.
fn same_hash(a: &[u8; 32], b: &[u8; 32]) -> (r: bool)
    ensures
        r == (a@ == b@),
{
    let mut i: usize = 0;
    while i < 32
        invariant
            i <= 32,
            forall|k: int| 0 <= k < i ==> a@[k] == b@[k],
        decreases 32 - i,
    {
        if a[i] != b[i] {
            return false;
        }
        i += 1;
    }
    assert(a@ =~= b@);
    true
}

/// The sum of the trapdoors, which is the binding signing key; `None` where
/// one of them is no scalar.
fn sum_trapdoors(rcvs: &[[u8; 32]]) -> (r: Option<[u8; 32]>)
    ensures
        r.is_some() <==> all_scalars(rcvs@),
        r.is_some() ==> is_binding_key(r.unwrap()@, rcvs@),
{
    let mut total = [0u8;32];
    proof {
        lemma_le_nat_zeros(total@);
        lemma_small_mod(0, scalar_modulus());
        assert(rcvs@.take(0) =~= Seq::<[u8; 32]>::empty());
    }
    let mut j: usize = 0;
    while j < rcvs.len()
        invariant
            j <= rcvs.len(),
            le_nat(total@) == trapdoor_total(rcvs@.take(j as int)) % scalar_modulus(),
            forall|k: int| 0 <= k < j ==> le_nat((#[trigger] rcvs@[k])@) < scalar_modulus(),
        decreases rcvs.len() - j,
    {
        let ghost before = trapdoor_total(rcvs@.take(j as int));
        match add_trapdoors(&total, &rcvs[j]) {
            Some(t) => {
                proof {
                    let x = le_nat(rcvs@[j as int]@);
                    assert(rcvs@.take(j + 1).drop_last() =~= rcvs@.take(j as int));
                    assert(rcvs@.take(j + 1).last() == rcvs@[j as int]);
                    lemma_small_mod(x, scalar_modulus());
                    lemma_add_mod_noop(before as int, x as int, scalar_modulus() as int);
                }
                total = t;
            },
            None => {
                assert(!(le_nat(rcvs@[j as int]@) < scalar_modulus()));
                return None;
            },
        }
        j += 1;
    }
    assert(rcvs@.take(j as int) =~= rcvs@);
    Some(total)
}

/// Whether the ballot has an action, every action has its lengths, and the
/// proofs, trapdoors and keys are one for each action.
fn counted(
    data: &BallotData,
    proofs: &Vec<VoteProof>,
    rcvs: &[[u8; 32]],
    spend_keys: Option<&[[u8; 32]]>,
) -> (r: bool)
    ensures
        r == counts_match(
            *data,
            proofs@,
            rcvs@,
            match spend_keys {
                Some(k) => Some(k@),
                None => None,
            },
        ),
{
    let n = data.actions.len();
    let keys_counted = match spend_keys {
        Some(keys) => keys.len() == n,
        None => true,
    };
    if n == 0 || proofs.len() != n || rcvs.len() != n || !keys_counted {
        return false;
    }
    let mut i: usize = 0;
    while i < n
        invariant
            n == data.actions@.len(),
            i <= n,
            forall|k: int| 0 <= k < i ==> (#[trigger] data.actions@[k]).well_formed(),
        decreases n - i,
    {
        let a = &data.actions[i];
        if a.cv_net.len() != 32 || a.rk.len() != 32 || a.nf.len() != 32 || a.cmx.len() != 32
            || a.epk.len() != 32 || a.enc.len() != 84 {
            assert(!data.actions@[i as int].well_formed());
            return false;
        }
        i += 1;
    }
    true
}

/// Completes a ballot once its actions are final: hashes its data, signs the
/// hash with the sum of the actions' value commitment trapdoors as the binding
/// key and, where spend authorization keys are given, with each of them.
///
/// Signs only what will verify: the sum of the value commitments must be the
/// verification key of the binding key, and each action must carry the
/// verification key of its spend authorization key. The signatures differ
/// from call to call; whatever they are, they verify. Fails with
/// `InvalidBallot` and the text that `refusal` gives.
pub fn sign_ballot(
    data: BallotData,
    proofs: Vec<VoteProof>,
    rcvs: &[[u8; 32]],
    spend_keys: Option<&[[u8; 32]]>,
) -> (r: Result<Ballot, VoteError>)
    ensures
        ({
            let keys = match spend_keys {
                Some(k) => Some(k@),
                None => None,
            };
            match r {
                Ok(ballot) => {
                    &&& signable(data, proofs@, rcvs@, keys)
                    &&& signed(ballot, data, proofs, spend_keys.is_some())
                },
                Err(e) => {
                    &&& !signable(data, proofs@, rcvs@, keys)
                    &&& e matches VoteError::InvalidBallot(msg) && msg@ == refusal(
                        data,
                        proofs@,
                        rcvs@,
                        keys,
                    )
                },
            }
        }),
{
    let ghost keys = match spend_keys {
        Some(k) => Some(k@),
        None => None,
    };
    if !counted(&data, &proofs, rcvs, spend_keys) {
        return Err(VoteError::InvalidBallot("Malformed ballot".to_owned()));
    }
    let bsk = match sum_trapdoors(rcvs) {
        Some(bsk) => bsk,
        None => {
            return Err(VoteError::InvalidBallot("Invalid signing key".to_owned()));
        },
    };
    // the verification key of each spend authorization key
    let mut rks: Vec<[u8; 32]> = Vec::new();
    match spend_keys {
        Some(ks) => {
            let mut j: usize = 0;
            while j < ks.len()
                invariant
                    j <= ks.len(),
                    spend_keys == Some(ks),
                    counts_match(data, proofs@, rcvs@, Some(ks@)),
                    all_scalars(rcvs@),
                    rks@.len() == j,
                    forall|k: int| 0 <= k < j ==> le_nat((#[trigger] ks@[k])@) < scalar_modulus(),
                    forall|k: int| 0 <= k < j ==> spend_vk_of(ks@[k]@) == Some((#[trigger] rks@[k])@),
                decreases ks.len() - j,
            {
                match spend_verification_key(&ks[j]) {
                    Some(rk) => {
                        rks.push(rk);
                    },
                    None => {
                        assert(!(le_nat(ks@[j as int]@) < scalar_modulus()));
                        return Err(VoteError::InvalidBallot("Invalid signing key".to_owned()));
                    },
                }
                j += 1;
            }
        },
        None => {},
    }
    assert(keys_valid(rcvs@, keys));
    let bvk = match binding_verification_key(&bsk) {
        Some(bvk) => bvk,
        None => {
            assert(false);
            return Err(VoteError::InvalidBallot("Invalid signing key".to_owned()));
        },
    };
    let balanced = match sum_commitments(&data.actions) {
        Some(total) => same_hash(&total, &bvk),
        None => false,
    };
    proof {
        if balanced {
            assert(is_binding_key(bsk@, rcvs@));
        } else {
            assert forall|other: Seq<u8>| #[trigger]
                is_binding_key(other, rcvs@) implies !(binding_vk_of(other).is_some() && cv_total(
                data.actions@,
                data.actions@.len(),
            ) == Some(binding_vk_of(other).unwrap())) by {
                lemma_le_nat_injective(other, bsk@);
            }
        }
    }
    if !balanced {
        return Err(VoteError::InvalidBallot("Notes do not match Votes".to_owned()));
    }
    match spend_keys {
        Some(ks) => {
            let mut j: usize = 0;
            while j < ks.len()
                invariant
                    j <= ks.len(),
                    spend_keys == Some(ks),
                    counts_match(data, proofs@, rcvs@, Some(ks@)),
                    keys_valid(rcvs@, Some(ks@)),
                    commitments_balance(data, rcvs@),
                    rks@.len() == ks@.len(),
                    forall|k: int|
                        0 <= k < ks@.len() ==> spend_vk_of(ks@[k]@) == Some((#[trigger] rks@[k])@),
                    keys_match_upto(data.actions@, ks@, j as int),
                decreases ks.len() - j,
            {
                let rk = to_hash(&data.actions[j].rk);
                if !same_hash(&rk, &rks[j]) {
                    assert(spend_vk_of(ks@[j as int]@) != Some(data.actions@[j as int].rk@));
                    return Err(
                        VoteError::InvalidBallot("Spend key does not match action".to_owned()),
                    );
                }
                j += 1;
            }
        },
        None => {},
    }
    assert(signable(data, proofs@, rcvs@, keys));
    let sig_hash = data.sighash();
    let binding = match sign_binding(&bsk, sig_hash.as_slice()) {
        Some(sig) => sig,
        None => {
            assert(false);
            return Err(VoteError::InvalidBallot("Invalid signing key".to_owned()));
        },
    };
    let sp_signatures = match spend_keys {
        Some(ks) => {
            let mut sigs: Vec<VoteSignature> = Vec::new();
            let mut j: usize = 0;
            while j < ks.len()
                invariant
                    j <= ks.len(),
                    sigs@.len() == j,
                    all_scalars(ks@),
                    ks@.len() == data.actions@.len(),
                    keys_match_upto(data.actions@, ks@, ks@.len() as int),
                    sig_hash@ == data_sighash(data),
                    forall|k: int| 0 <= k < j ==> (#[trigger] sigs@[k]).0@.len() == 64,
                    spend_auth_upto(data.actions@, sigs@, sig_hash@, j as int),
                decreases ks.len() - j,
            {
                let ghost before = sigs@;
                match sign_spend_auth(&ks[j], sig_hash.as_slice()) {
                    Some(sig) => {
                        sigs.push(VoteSignature(signature_bytes(&sig)));
                        proof {
                            assert(spend_vk_of(ks@[j as int]@) == Some(data.actions@[j as int].rk@));
                            assert forall|i: int| 0 <= i < j + 1 implies spend_auth_verifies(
                                (#[trigger] data.actions@[i]).rk@,
                                sig_hash@,
                                sigs@[i].0@,
                            ) by {
                                if i < j {
                                    assert(sigs@[i] == before[i]);
                                }
                            }
                        }
                    },
                    None => {
                        assert(false);
                    },
                }
                j += 1;
            }
            Some(sigs)
        },
        None => None,
    };
    let ballot = Ballot {
        data,
        witnesses: BallotWitnesses {
            proofs,
            sp_signatures,
            binding_signature: signature_bytes(&binding),
        },
    };
    assert(sighash_of(ballot) == sig_hash@);
    Ok(ballot)
}

/// A ballot that the builder signed is accepted: where every proof verifies,
/// the anchors are the election's, and spend authorization signatures were
/// made where the election requires them, validation succeeds.
pub proof fn lemma_signed_ballot_is_accepted(
    ballot: Ballot,
    data: BallotData,
    proofs: Vec<VoteProof>,
    rcvs: Seq<[u8; 32]>,
    spend_keys: Option<Seq<[u8; 32]>>,
    election: Election,
    proofs_ok: Seq<bool>,
)
    requires
        signable(data, proofs@, rcvs, spend_keys),
        signed(ballot, data, proofs, spend_keys.is_some()),
        proofs_ok.len() == data.actions@.len(),
        all_true(proofs_ok),
        anchors_ok(ballot, election),
        election.signature_required ==> spend_keys.is_some(),
    ensures
        verdict(
            shaped(ballot, proofs_ok),
            election.signature_required,
            ballot.witnesses.sp_signatures.is_some(),
            spend_auth_ok(ballot),
            binding_ok(ballot),
            all_true(proofs_ok),
            anchors_ok(ballot, election),
        ) == Verdict::Accepted,
{
}

} // verus!
