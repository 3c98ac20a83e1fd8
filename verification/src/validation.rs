use crate::ballot::{sighash_personal, Ballot, BallotAction, VoteSignature};
use crate::bytes::{copy_bytes, same_bytes};
use crate::election::Election;
use crate::errors::VoteError;
use crate::hash::blake2b_256_of;
use crate::signature::{
    add_commitments, binding_verifies, cv_sum_of, spend_auth_verifies, verify_binding,
    verify_spend_auth,
};
use vstd::prelude::*;

verus! {

/// What a valid ballot reveals: the hash that it signs and the domain
/// nullifier of each of its actions.
#[derive(Debug)]
pub struct ValidationResult {
    pub sig_hash: Vec<u8>,
    pub nfs: Vec<Vec<u8>>,
}

/// How the validation of a ballot ends.
pub enum Verdict {
    Accepted,
    Malformed,
    MissingSignature,
    InvalidSignature,
    InvalidProof,
    InvalidAnchor,
}

/// The verdict on a ballot, from the outcome of each check. The checks are
/// named in the order in which a failure is reported.
pub open spec fn verdict(
    shaped: bool,
    signature_required: bool,
    signed: bool,
    spend_auth_ok: bool,
    binding_ok: bool,
    proofs_ok: bool,
    anchors_ok: bool,
) -> Verdict {
    if !shaped {
        Verdict::Malformed
    } else if signature_required && !signed {
        Verdict::MissingSignature
    } else if !spend_auth_ok || !binding_ok {
        Verdict::InvalidSignature
    } else if !proofs_ok {
        Verdict::InvalidProof
    } else if !anchors_ok {
        Verdict::InvalidAnchor
    } else {
        Verdict::Accepted
    }
}

/// Whether the error is the one that reports the verdict.
pub open spec fn reports(e: VoteError, v: Verdict) -> bool {
    match v {
        Verdict::Accepted => false,
        Verdict::Malformed => e matches VoteError::InvalidBallot(msg) && msg@
            == "Malformed ballot"@,
        Verdict::MissingSignature => e == VoteError::MissingSignature,
        Verdict::InvalidSignature => e == VoteError::InvalidSignature,
        Verdict::InvalidProof => e == VoteError::InvalidProof,
        Verdict::InvalidAnchor => e == VoteError::InvalidAnchor,
    }
}

/// A ballot is accepted only if every check succeeds: none of them, the
/// binding signature least of all, can fail without the ballot being refused.
pub proof fn lemma_accepted_needs_every_check(
    shaped: bool,
    signature_required: bool,
    signed: bool,
    spend_auth_ok: bool,
    binding_ok: bool,
    proofs_ok: bool,
    anchors_ok: bool,
)
    ensures
        verdict(
            shaped,
            signature_required,
            signed,
            spend_auth_ok,
            binding_ok,
            proofs_ok,
            anchors_ok,
        ) == Verdict::Accepted <==> {
            &&& shaped
            &&& signature_required ==> signed
            &&& spend_auth_ok
            &&& binding_ok
            &&& proofs_ok
            &&& anchors_ok
        },
{
}

/// The anchors of an accepted ballot are the election's: the validator
/// accepts no root but the one that the election holds.
pub proof fn lemma_accepted_anchors_are_the_elections(
    ballot: Ballot,
    election: Election,
    proofs_ok: Seq<bool>,
)
    requires
        verdict(
            shaped(ballot, proofs_ok),
            election.signature_required,
            ballot.witnesses.sp_signatures.is_some(),
            spend_auth_ok(ballot),
            binding_ok(ballot),
            all_true(proofs_ok),
            anchors_ok(ballot, election),
        ) == Verdict::Accepted,
    ensures
        ballot.data.anchors.nf@ == election.nf@,
        ballot.data.anchors.cmx@ == election.cmx@,
        binding_ok(ballot),
{
}

/// Turns the outcome of every check on a ballot into the result of its
/// validation. Every check has been made when this is called: none is skipped
/// because another failed.
pub fn decide(
    shaped: bool,
    signature_required: bool,
    signed: bool,
    spend_auth_ok: bool,
    binding_ok: bool,
    proofs_ok: bool,
    anchors_ok: bool,
) -> (r: Result<(), VoteError>)
    ensures
        r.is_ok() <==> verdict(
            shaped,
            signature_required,
            signed,
            spend_auth_ok,
            binding_ok,
            proofs_ok,
            anchors_ok,
        ) == Verdict::Accepted,
        r.is_err() ==> reports(
            r.unwrap_err(),
            verdict(
                shaped,
                signature_required,
                signed,
                spend_auth_ok,
                binding_ok,
                proofs_ok,
                anchors_ok,
            ),
        ),
{
    if !shaped {
        Err(VoteError::InvalidBallot("Malformed ballot".to_owned()))
    } else if signature_required && !signed {
        Err(VoteError::MissingSignature)
    } else if !spend_auth_ok || !binding_ok {
        Err(VoteError::InvalidSignature)
    } else if !proofs_ok {
        Err(VoteError::InvalidProof)
    } else if !anchors_ok {
        Err(VoteError::InvalidAnchor)
    } else {
        Ok(())
    }
}

/// Whether the ballot has the shape that the checks need: at least one
/// action, one proof and one proof outcome for each action, every part of
/// every action with its length on the wire, 64 bytes in each signature, and,
/// where spend authorization signatures are given, one for each action.
pub open spec fn shaped(ballot: Ballot, proofs_ok: Seq<bool>) -> bool {
    let actions = ballot.data.actions@;
    &&& actions.len() > 0
    &&& ballot.witnesses.proofs@.len() == actions.len()
    &&& proofs_ok.len() == actions.len()
    &&& ballot.witnesses.binding_signature@.len() == 64
    &&& forall|i: int| 0 <= i < actions.len() ==> (#[trigger] actions[i]).well_formed()
    &&& match ballot.witnesses.sp_signatures {
        Some(sigs) => {
            &&& sigs@.len() == actions.len()
            &&& forall|i: int| 0 <= i < sigs@.len() ==> (#[trigger] sigs@[i]).0@.len() == 64
        },
        None => true,
    }
}

/// The hash that the ballot's signatures sign.
pub open spec fn sighash_of(ballot: Ballot) -> Seq<u8> {
    blake2b_256_of(sighash_personal(), ballot.data.encoding())
}

/// Whether the first `n` spend authorization signatures verify, each under
/// the verification key of its action.
pub open spec fn spend_auth_upto(
    actions: Seq<BallotAction>,
    sigs: Seq<VoteSignature>,
    msg: Seq<u8>,
    n: int,
) -> bool {
    forall|i: int|
        0 <= i < n ==> spend_auth_verifies((#[trigger] actions[i]).rk@, msg, sigs[i].0@)
}

/// Whether every spend authorization signature that the ballot carries
/// verifies.
pub open spec fn spend_auth_ok(ballot: Ballot) -> bool {
    match ballot.witnesses.sp_signatures {
        Some(sigs) => spend_auth_upto(
            ballot.data.actions@,
            sigs@,
            sighash_of(ballot),
            ballot.data.actions@.len() as int,
        ),
        None => true,
    }
}

/// The sum of the value commitments of the first `n` actions, `n` at least 1.
pub open spec fn cv_total(actions: Seq<BallotAction>, n: nat) -> Option<Seq<u8>>
    decreases n,
{
    if n <= 1 {
        Some(actions[0].cv_net@)
    } else {
        match cv_total(actions, (n - 1) as nat) {
            Some(t) => cv_sum_of(t, actions[n - 1].cv_net@),
            None => None,
        }
    }
}

/// Whether the binding signature verifies under the key that the sum of all
/// value commitments encodes. A ballot spends what it pays, so no commitment
/// to a value is taken from the sum.
pub open spec fn binding_ok(ballot: Ballot) -> bool {
    match cv_total(ballot.data.actions@, ballot.data.actions@.len()) {
        Some(total) => binding_verifies(
            total,
            sighash_of(ballot),
            ballot.witnesses.binding_signature@,
        ),
        None => false,
    }
}

/// Whether both anchors of the ballot are the election's, byte for byte.
pub open spec fn anchors_ok(ballot: Ballot, election: Election) -> bool {
    &&& ballot.data.anchors.cmx@ == election.cmx@
    &&& ballot.data.anchors.nf@ == election.nf@
}

/// Whether every proof outcome is a success.
pub open spec fn all_true(outcomes: Seq<bool>) -> bool {
    forall|i: int| 0 <= i < outcomes.len() ==> outcomes[i]
}

/// The 32 bytes of a byte string of that length.
pub(crate) fn to_hash(a: &Vec<u8>) -> (r: [u8; 32])
    requires
        a.len() == 32,
    ensures
        r@ == a@,
{
    let mut r = [0u8;32];
    let mut i: usize = 0;
    while i < 32
        invariant
            a.len() == 32,
            i <= 32,
            forall|k: int| 0 <= k < i ==> r@[k] == a[k],
        decreases 32 - i,
    {
        r[i] = a[i];
        i += 1;
    }
    assert(r@ =~= a@);
    r
}

/// The 64 bytes of a byte string of that length.
fn to_signature(a: &Vec<u8>) -> (r: [u8; 64])
    requires
        a.len() == 64,
    ensures
        r@ == a@,
{
    let mut r = [0u8;64];
    let mut i: usize = 0;
    while i < 64
        invariant
            a.len() == 64,
            i <= 64,
            forall|k: int| 0 <= k < i ==> r@[k] == a[k],
        decreases 64 - i,
    {
        r[i] = a[i];
        i += 1;
    }
    assert(r@ =~= a@);
    r
}

/// Checks the shape of a ballot.
fn check_shape(ballot: &Ballot, proofs_ok: &[bool]) -> (r: bool)
    ensures
        r == shaped(*ballot, proofs_ok@),
{
    let actions = &ballot.data.actions;
    let n = actions.len();
    if n == 0 || ballot.witnesses.proofs.len() != n || proofs_ok.len() != n
        || ballot.witnesses.binding_signature.len() != 64 {
        return false;
    }
    let mut i: usize = 0;
    while i < n
        invariant
            *actions == ballot.data.actions,
            n == actions.len(),
            i <= n,
            forall|k: int| 0 <= k < i ==> (#[trigger] actions@[k]).well_formed(),
        decreases n - i,
    {
        let a = &actions[i];
        if a.cv_net.len() != 32 || a.rk.len() != 32 || a.nf.len() != 32 || a.cmx.len() != 32
            || a.epk.len() != 32 || a.enc.len() != 84 {
            assert(ballot.data.actions@[i as int] == *a);
            assert(!shaped(*ballot, proofs_ok@));
            return false;
        }
        i += 1;
    }
    match &ballot.witnesses.sp_signatures {
        Some(sigs) => {
            if sigs.len() != n {
                return false;
            }
            let mut j: usize = 0;
            while j < sigs.len()
                invariant
                    ballot.witnesses.sp_signatures == Some(*sigs),
                    j <= sigs.len(),
                    forall|k: int| 0 <= k < j ==> (#[trigger] sigs@[k]).0@.len() == 64,
                decreases sigs.len() - j,
            {
                if sigs[j].0.len() != 64 {
                    assert(sigs@[j as int].0@.len() != 64);
                    assert(!shaped(*ballot, proofs_ok@));
                    return false;
                }
                j += 1;
            }
            true
        },
        None => true,
    }
}

/// Verifies every spend authorization signature, without stopping at a
/// failure.
fn check_spend_auth(ballot: &Ballot, sig_hash: &[u8; 32]) -> (r: bool)
    requires
        shaped(*ballot, Seq::new(ballot.data.actions@.len(), |i: int| true)),
        sig_hash@ == sighash_of(*ballot),
    ensures
        r == spend_auth_ok(*ballot),
{
    match &ballot.witnesses.sp_signatures {
        Some(sigs) => {
            let actions = &ballot.data.actions;
            let mut ok = true;
            let mut i: usize = 0;
            while i < sigs.len()
                invariant
                    i <= sigs.len(),
                    sigs.len() == actions.len(),
                    forall|k: int| 0 <= k < actions.len() ==> (#[trigger] actions@[k]).rk@.len() == 32,
                    forall|k: int| 0 <= k < sigs.len() ==> (#[trigger] sigs@[k]).0@.len() == 64,
                    ok == spend_auth_upto(actions@, sigs@, sig_hash@, i as int),
                decreases sigs.len() - i,
            {
                let rk = to_hash(&actions[i].rk);
                let sig = to_signature(&sigs[i].0);
                let one = verify_spend_auth(&rk, sig_hash.as_slice(), &sig);
                assert(actions@[i as int].rk@ == rk@);
                ok = ok && one;
                i += 1;
            }
            ok
        },
        None => true,
    }
}

/// Sums the value commitments, derives the binding verification key and
/// verifies the binding signature.
fn check_binding(ballot: &Ballot, sig_hash: &[u8; 32]) -> (r: bool)
    requires
        shaped(*ballot, Seq::new(ballot.data.actions@.len(), |i: int| true)),
        sig_hash@ == sighash_of(*ballot),
    ensures
        r == binding_ok(*ballot),
{
    match sum_commitments(&ballot.data.actions) {
        Some(bvk) => {
            let sig = to_signature(&ballot.witnesses.binding_signature);
            verify_binding(&bvk, sig_hash.as_slice(), &sig)
        },
        None => false,
    }
}

/// The sum of the value commitments of all actions; `None` where two of them
/// cannot be added.
pub(crate) fn sum_commitments(actions: &Vec<BallotAction>) -> (total: Option<[u8; 32]>)
    requires
        actions@.len() > 0,
        forall|k: int| 0 <= k < actions@.len() ==> (#[trigger] actions@[k]).well_formed(),
    ensures
        total.is_some() == cv_total(actions@, actions@.len()).is_some(),
        total.is_some() ==> total.unwrap()@ == cv_total(actions@, actions@.len()).unwrap(),
{
    let mut total: Option<[u8; 32]> = Some(to_hash(&actions[0].cv_net));
    let mut i: usize = 1;
    while i < actions.len()
        invariant
            1 <= i <= actions.len(),
            forall|k: int| 0 <= k < actions@.len() ==> (#[trigger] actions@[k]).well_formed(),
            total.is_some() == cv_total(actions@, i as nat).is_some(),
            total.is_some() ==> total.unwrap()@ == cv_total(actions@, i as nat).unwrap(),
        decreases actions.len() - i,
    {
        let next = to_hash(&actions[i].cv_net);
        assert(actions@[i as int].cv_net@ == next@);
        total = match total {
            Some(t) => add_commitments(&t, &next),
            None => None,
        };
        i += 1;
    }
    total
}

/// Whether every outcome is a success.
fn check_all(outcomes: &[bool]) -> (r: bool)
    ensures
        r == all_true(outcomes@),
{
    let mut ok = true;
    let mut i: usize = 0;
    while i < outcomes.len()
        invariant
            i <= outcomes.len(),
            ok == forall|k: int| 0 <= k < i ==> outcomes@[k],
        decreases outcomes.len() - i,
    {
        ok = ok && outcomes[i];
        i += 1;
    }
    ok
}

/// The public input of the zero-knowledge proof of one action, in the order
/// in which the circuit takes it. The anchors and the domain are the
/// election's, byte for byte as the election holds them.
#[derive(Debug)]
pub struct ProofInstance {
    pub cmx_root: Vec<u8>,
    pub cv_net: Vec<u8>,
    pub domain_nf: Vec<u8>,
    pub rk: Vec<u8>,
    pub cmx: Vec<u8>,
    pub domain: Vec<u8>,
    pub nf_root: Vec<u8>,
}

/// The public input of the proof of the action at `i`, or `None` where the
/// ballot has no such action.
pub fn public_instance(ballot: &Ballot, election: &Election, domain: &Vec<u8>, i: usize) -> (r:
    Option<ProofInstance>)
    ensures
        r.is_some() <==> i < ballot.data.actions@.len(),
        r.is_some() ==> {
            let instance = r.unwrap();
            let action = ballot.data.actions@[i as int];
            &&& instance.cmx_root@ == election.cmx@
            &&& instance.cv_net@ == action.cv_net@
            &&& instance.domain_nf@ == action.nf@
            &&& instance.rk@ == action.rk@
            &&& instance.cmx@ == action.cmx@
            &&& instance.domain@ == domain@
            &&& instance.nf_root@ == election.nf@
        },
{
    if i >= ballot.data.actions.len() {
        return None;
    }
    let action = &ballot.data.actions[i];
    Some(
        ProofInstance {
            cmx_root: copy_bytes(&election.cmx),
            cv_net: copy_bytes(&action.cv_net),
            domain_nf: copy_bytes(&action.nf),
            rk: copy_bytes(&action.rk),
            cmx: copy_bytes(&action.cmx),
            domain: copy_bytes(domain),
            nf_root: copy_bytes(&election.nf),
        },
    )
}

/// Validates a ballot against an election, given for each action whether its
/// zero-knowledge proof verified.
///
/// Recomputes the signature hash, verifies the spend authorization
/// signatures that the ballot carries and the binding signature, and compares
/// the anchors with the election's. Returns the signature hash and the domain
/// nullifiers that the ballot reveals, or the error that reports the first
/// check that failed.
pub fn validate_proof(ballot: &Ballot, election: &Election, proofs_ok: &[bool]) -> (r: Result<
    ValidationResult,
    VoteError,
>)
    ensures
        match r {
            Ok(v) => {
                &&& verdict(
                    shaped(*ballot, proofs_ok@),
                    election.signature_required,
                    ballot.witnesses.sp_signatures.is_some(),
                    spend_auth_ok(*ballot),
                    binding_ok(*ballot),
                    all_true(proofs_ok@),
                    anchors_ok(*ballot, *election),
                ) == Verdict::Accepted
                &&& v.sig_hash@ == sighash_of(*ballot)
                &&& v.nfs@.len() == ballot.data.actions@.len()
                &&& forall|i: int|
                    0 <= i < v.nfs@.len() ==> (#[trigger] v.nfs@[i])@ == ballot.data.actions@[i].nf@
            },
            Err(e) => reports(
                e,
                verdict(
                    shaped(*ballot, proofs_ok@),
                    election.signature_required,
                    ballot.witnesses.sp_signatures.is_some(),
                    spend_auth_ok(*ballot),
                    binding_ok(*ballot),
                    all_true(proofs_ok@),
                    anchors_ok(*ballot, *election),
                ),
            ),
        },
{
    let is_shaped = check_shape(ballot, proofs_ok);
    let sig_hash_bytes = ballot.data.sighash();
    let mut sp_ok = false;
    let mut b_ok = false;
    if is_shaped {
        assert(shaped(*ballot, Seq::new(ballot.data.actions@.len(), |i: int| true)));
        let sig_hash = to_hash(&sig_hash_bytes);
        sp_ok = check_spend_auth(ballot, &sig_hash);
        b_ok = check_binding(ballot, &sig_hash);
    }
    let p_ok = check_all(proofs_ok);
    let a_ok = same_bytes(&ballot.data.anchors.cmx, &election.cmx) && same_bytes(
        &ballot.data.anchors.nf,
        &election.nf,
    );
    match decide(
        is_shaped,
        election.signature_required,
        ballot.witnesses.sp_signatures.is_some(),
        sp_ok,
        b_ok,
        p_ok,
        a_ok,
    ) {
        Ok(_) => {
            let actions = &ballot.data.actions;
            let mut nfs: Vec<Vec<u8>> = Vec::new();
            let mut i: usize = 0;
            while i < actions.len()
                invariant
                    i <= actions.len(),
                    nfs@.len() == i,
                    forall|k: int| 0 <= k < i ==> (#[trigger] nfs@[k])@ == actions@[k].nf@,
                decreases actions.len() - i,
            {
                nfs.push(copy_bytes(&actions[i].nf));
                i += 1;
            }
            Ok(ValidationResult { sig_hash: sig_hash_bytes, nfs })
        },
        Err(e) => Err(e),
    }
}

} // verus!
