use orchard::primitives::redpallas::{Binding, SigningKey, SpendAuth, VerificationKey};
use orchard::value::{NoteValue, ValueCommitTrapdoor, ValueCommitment};
use rand::rngs::StdRng;
use rand::SeedableRng;
use zcash_vote::ballot::{
    Ballot, BallotAction, BallotAnchors, BallotData, BallotWitnesses, VoteProof, VoteSignature,
};
use zcash_vote::builder::{
    check_balance, plan_actions, sign_ballot, witness_notes, ActionPlan, NotePosition,
};
use zcash_vote::election::Election;
use zcash_vote::errors::VoteError;
use zcash_vote::field::Fp;
use zcash_vote::prevhash::PreviousHashes;
use zcash_vote::tally::Tally;
use zcash_vote::trees::{compute_cmx_root, compute_nf_root};
use zcash_vote::validate::validate_key;
use zcash_vote::validation::{decide, public_instance, validate_proof};

fn trapdoor(n: u8) -> ValueCommitTrapdoor {
    let mut b = [0u8; 32];
    b[0] = n;
    ValueCommitTrapdoor::from_bytes(b).unwrap()
}

fn spend_key(n: u8) -> SigningKey<SpendAuth> {
    let mut b = [0u8; 32];
    b[0] = n;
    SigningKey::<SpendAuth>::try_from(b).unwrap()
}

fn election(signature_required: bool) -> Election {
    Election {
        id: "1".to_string(),
        name: "Test".to_string(),
        start_height: 100,
        end_height: 200,
        question: "?".to_string(),
        candidates: vec![],
        signature_required,
        cmx: vec![9; 32],
        nf: vec![8; 32],
    }
}

// Two notes of value 3 and 7 pay for the weights 4 and 6.
fn balanced_ballot(with_spend_auth: bool) -> Ballot {
    let mut rng = StdRng::seed_from_u64(7);
    let inputs = [3u64, 7];
    let weights = [4u64, 6];
    let mut actions = vec![];
    for j in 0..2 {
        let cv = ValueCommitment::derive(
            NoteValue::from_raw(inputs[j]) - NoteValue::from_raw(weights[j]),
            trapdoor(11 + j as u8),
        );
        let rk: [u8; 32] = (&VerificationKey::from(&spend_key(5 + j as u8))).into();
        actions.push(BallotAction {
            cv_net: cv.to_bytes().to_vec(),
            rk: rk.to_vec(),
            nf: vec![40 + j as u8; 32],
            cmx: vec![50 + j as u8; 32],
            epk: vec![60 + j as u8; 32],
            enc: vec![70 + j as u8; 84],
        });
    }
    let data = BallotData {
        version: 1,
        domain: vec![3; 32],
        actions,
        anchors: BallotAnchors {
            nf: vec![8; 32],
            cmx: vec![9; 32],
        },
    };
    let sighash = data.sighash();
    let bsk = SigningKey::<Binding>::try_from((trapdoor(11) + &trapdoor(12)).to_bytes()).unwrap();
    let binding: [u8; 64] = (&bsk.sign(&mut rng, &sighash)).into();
    let sp_signatures = if with_spend_auth {
        let mut sigs = vec![];
        for j in 0..2 {
            let sig: [u8; 64] = (&spend_key(5 + j as u8).sign(&mut rng, &sighash)).into();
            sigs.push(VoteSignature(sig.to_vec()));
        }
        Some(sigs)
    } else {
        None
    };
    Ballot {
        data,
        witnesses: BallotWitnesses {
            proofs: vec![VoteProof(vec![1]), VoteProof(vec![2])],
            sp_signatures,
            binding_signature: binding.to_vec(),
        },
    }
}

#[test]
fn values_must_pay_for_the_weights() {
    assert!(check_balance(&[3, 7], &[4, 6]).is_ok());
    assert!(check_balance(&[], &[]).is_ok());
    assert!(check_balance(&[u64::MAX, u64::MAX], &[u64::MAX, 1, u64::MAX - 1]).is_ok());
    match check_balance(&[3, 7], &[4, 5]) {
        Err(VoteError::InvalidBallot(msg)) => assert_eq!(msg, "Notes do not match Votes"),
        other => panic!("{:?}", other),
    }
    assert!(check_balance(&[u64::MAX, 1], &[0]).is_err());
}

#[test]
fn a_balanced_ballot_is_valid_and_reveals_its_nullifiers() {
    let ballot = balanced_ballot(false);
    let r = validate_proof(&ballot, &election(false), &[true, true]).unwrap();
    assert_eq!(r.sig_hash, ballot.data.sighash());
    assert_eq!(r.nfs, vec![vec![40u8; 32], vec![41u8; 32]]);
}

#[test]
fn a_signed_ballot_is_valid_where_signatures_are_required() {
    let ballot = balanced_ballot(true);
    let r = validate_proof(&ballot, &election(true), &[true, true]).unwrap();
    assert_eq!(r.nfs.len(), 2);
    assert!(validate_proof(&ballot, &election(false), &[true, true]).is_ok());
}

#[test]
fn a_required_signature_that_is_missing_is_an_error() {
    let ballot = balanced_ballot(false);
    assert!(matches!(
        validate_proof(&ballot, &election(true), &[true, true]),
        Err(VoteError::MissingSignature)
    ));
}

#[test]
fn a_changed_ballot_fails_the_binding_signature() {
    for part in 0..5 {
        let mut ballot = balanced_ballot(false);
        let a = &mut ballot.data.actions[1];
        match part {
            0 => a.nf[0] ^= 1,
            1 => a.cmx[0] ^= 1,
            2 => a.rk[0] ^= 1,
            3 => a.enc[0] ^= 1,
            _ => a.cv_net = ballot_commitment(9, 6, 12),
        }
        assert!(matches!(
            validate_proof(&ballot, &election(false), &[true, true]),
            Err(VoteError::InvalidSignature)
        ));
    }
    let mut ballot = balanced_ballot(false);
    ballot.witnesses.binding_signature[3] ^= 1;
    assert!(matches!(
        validate_proof(&ballot, &election(false), &[true, true]),
        Err(VoteError::InvalidSignature)
    ));
}

fn ballot_commitment(value: u64, weight: u64, rcv: u8) -> Vec<u8> {
    ValueCommitment::derive(
        NoteValue::from_raw(value) - NoteValue::from_raw(weight),
        trapdoor(rcv),
    )
    .to_bytes()
    .to_vec()
}

#[test]
fn an_unbalanced_ballot_fails_the_binding_signature() {
    // the same trapdoors, but the values no longer pay for the weights
    let mut ballot = balanced_ballot(false);
    ballot.data.actions[0].cv_net = ballot_commitment(3, 5, 11);
    assert!(matches!(
        validate_proof(&ballot, &election(false), &[true, true]),
        Err(VoteError::InvalidSignature)
    ));
    // bytes that encode no commitment
    let mut ballot = balanced_ballot(false);
    ballot.data.actions[0].cv_net = vec![0xff; 32];
    assert!(matches!(
        validate_proof(&ballot, &election(false), &[true, true]),
        Err(VoteError::InvalidSignature)
    ));
}

#[test]
fn a_wrong_spend_authorization_signature_is_an_error() {
    let mut ballot = balanced_ballot(true);
    let mut sigs = ballot.witnesses.sp_signatures.take().unwrap();
    sigs.swap(0, 1);
    ballot.witnesses.sp_signatures = Some(sigs);
    assert!(matches!(
        validate_proof(&ballot, &election(false), &[true, true]),
        Err(VoteError::InvalidSignature)
    ));
}

#[test]
fn a_failed_proof_is_an_error() {
    let ballot = balanced_ballot(false);
    assert!(matches!(
        validate_proof(&ballot, &election(false), &[true, false]),
        Err(VoteError::InvalidProof)
    ));
}

#[test]
fn an_anchor_that_is_not_the_elections_is_an_error() {
    let ballot = balanced_ballot(false);
    let mut e = election(false);
    e.nf[31] ^= 1;
    assert!(matches!(
        validate_proof(&ballot, &e, &[true, true]),
        Err(VoteError::InvalidAnchor)
    ));
    let mut e = election(false);
    e.cmx = vec![9; 31];
    assert!(matches!(
        validate_proof(&ballot, &e, &[true, true]),
        Err(VoteError::InvalidAnchor)
    ));
}

#[test]
fn a_ballot_of_another_shape_is_malformed() {
    let e = election(false);
    let ballot = balanced_ballot(false);
    match validate_proof(&ballot, &e, &[true]) {
        Err(VoteError::InvalidBallot(msg)) => assert_eq!(msg, "Malformed ballot"),
        other => panic!("{:?}", other),
    }
    let mut ballot = balanced_ballot(false);
    ballot.data.actions[0].rk.pop();
    assert!(matches!(
        validate_proof(&ballot, &e, &[true, true]),
        Err(VoteError::InvalidBallot(_))
    ));
    let mut ballot = balanced_ballot(false);
    ballot.witnesses.binding_signature.push(0);
    assert!(matches!(
        validate_proof(&ballot, &e, &[true, true]),
        Err(VoteError::InvalidBallot(_))
    ));
    let mut ballot = balanced_ballot(true);
    ballot.witnesses.sp_signatures.as_mut().unwrap().pop();
    assert!(matches!(
        validate_proof(&ballot, &e, &[true, true]),
        Err(VoteError::InvalidBallot(_))
    ));
    let mut ballot = balanced_ballot(false);
    ballot.data.actions.clear();
    ballot.witnesses.proofs.clear();
    assert!(matches!(
        validate_proof(&ballot, &e, &[]),
        Err(VoteError::InvalidBallot(_))
    ));
}

#[test]
fn the_first_failed_check_is_reported() {
    assert!(decide(true, true, true, true, true, true, true).is_ok());
    assert!(decide(true, false, false, true, true, true, true).is_ok());
    assert!(matches!(
        decide(false, true, false, false, false, false, false),
        Err(VoteError::InvalidBallot(_))
    ));
    assert!(matches!(
        decide(true, true, false, false, false, false, false),
        Err(VoteError::MissingSignature)
    ));
    assert!(matches!(
        decide(true, true, true, false, true, false, false),
        Err(VoteError::InvalidSignature)
    ));
    assert!(matches!(
        decide(true, true, true, true, false, true, true),
        Err(VoteError::InvalidSignature)
    ));
    assert!(matches!(
        decide(true, true, true, true, true, false, false),
        Err(VoteError::InvalidProof)
    ));
    assert!(matches!(
        decide(true, true, true, true, true, true, false),
        Err(VoteError::InvalidAnchor)
    ));
}

#[test]
fn a_nullifier_revealed_twice_is_refused() {
    let first = balanced_ballot(false);
    let r = validate_proof(&first, &election(false), &[true, true]).unwrap();
    let mut tally = Tally::new();
    assert!(tally.accept(&r.nfs).is_ok());
    assert_eq!(tally.seen, r.nfs);
    // another ballot that reveals one of the same nullifiers
    let second = vec![vec![1u8; 32], vec![41u8; 32]];
    match tally.accept(&second) {
        Err(VoteError::DoubleNullifier(s)) => assert_eq!(s, hex::encode([41u8; 32])),
        other => panic!("{:?}", other),
    }
    assert_eq!(tally.seen, r.nfs);
    // a ballot that reveals one nullifier twice
    let twice = vec![vec![2u8; 32], vec![2u8; 32]];
    assert!(matches!(
        tally.accept(&twice),
        Err(VoteError::DoubleNullifier(_))
    ));
    assert_eq!(tally.seen.len(), 2);
    assert!(tally.accept(&vec![vec![2u8; 32], vec![3u8; 32]]).is_ok());
    assert_eq!(tally.seen.len(), 4);
    assert_eq!(tally.seen[3], vec![3u8; 32]);
}

#[test]
fn keys_are_seed_phrases_or_viewing_keys() {
    assert!(validate_key(
        "abandon abandon abandon abandon abandon abandon abandon abandon abandon abandon abandon about"
    ));
    assert!(!validate_key("abandon abandon abandon"));
    assert!(!validate_key(""));
    assert!(!validate_key("uview1notakey"));
}

#[test]
fn notes_are_witnessed_against_both_anchors() {
    let cmxs: Vec<Fp> = (0..5).map(|i| Fp::from_u64(100 + i)).collect();
    let nfs = [Fp::from_u64(20), Fp::from_u64(30)];
    let note = |position: u32, nf: u64| NotePosition {
        value: 1,
        nf: Fp::from_u64(nf),
        position,
        nf_start_range: Fp::zero(),
        nf_position: 0,
    };
    let mut notes = vec![note(1, 25), note(4, 7), note(2, 31)];
    let w = witness_notes(&PreviousHashes::new(), &cmxs, &nfs, &mut notes).unwrap();
    assert_eq!(w.cmx_root, compute_cmx_root(&cmxs).unwrap().0);
    assert_eq!(w.nf_root, compute_nf_root(&nfs));
    assert_eq!(notes[0].nf_position, 2);
    assert_eq!(notes[0].nf_start_range, Fp::from_u64(21));
    assert_eq!(notes[1].nf_position, 0);
    assert_eq!(notes[1].nf_start_range, Fp::from_u64(0));
    assert_eq!(notes[2].nf_position, 4);
    assert_eq!(notes[2].nf_start_range, Fp::from_u64(31));
    for j in 0..3 {
        assert_eq!(w.cmx_paths[j].position, notes[j].position);
        assert_eq!(w.cmx_paths[j].value, cmxs[notes[j].position as usize]);
        assert_eq!(w.cmx_paths[j].root(), w.cmx_root);
        assert_eq!(w.nf_paths[j].position, notes[j].nf_position);
        assert_eq!(w.nf_paths[j].value, notes[j].nf_start_range);
        assert_eq!(w.nf_paths[j].root(), w.nf_root);
    }
    let mut spent = vec![note(1, 25), note(2, 30)];
    match witness_notes(&PreviousHashes::new(), &cmxs, &nfs, &mut spent) {
        Err(VoteError::DoubleNullifier(s)) => {
            assert_eq!(s, hex::encode(Fp::from_u64(30).to_bytes()))
        }
        other => panic!("{:?}", other.is_ok()),
    }
    let mut outside = vec![note(5, 25)];
    assert!(matches!(
        witness_notes(&PreviousHashes::new(), &cmxs, &nfs, &mut outside),
        Err(VoteError::OutOfRange(5))
    ));
}

fn scalar(n: u8) -> [u8; 32] {
    let mut b = [0u8; 32];
    b[0] = n;
    b
}

#[test]
fn a_ballot_signed_by_the_builder_is_valid() {
    let unsigned = balanced_ballot(false);
    let rcvs = [scalar(11), scalar(12)];
    let keys = [scalar(5), scalar(6)];
    let proofs = vec![VoteProof(vec![1]), VoteProof(vec![2])];
    let ballot = sign_ballot(unsigned.data.clone(), proofs, &rcvs, Some(&keys)).unwrap();
    assert_eq!(ballot.data.sighash(), unsigned.data.sighash());
    assert_eq!(ballot.witnesses.proofs.len(), 2);
    assert_eq!(ballot.witnesses.proofs[1].0, vec![2]);
    assert_eq!(ballot.witnesses.binding_signature.len(), 64);
    assert_eq!(ballot.witnesses.sp_signatures.as_ref().unwrap().len(), 2);
    let r = validate_proof(&ballot, &election(true), &[true, true]).unwrap();
    assert_eq!(r.nfs, vec![vec![40u8; 32], vec![41u8; 32]]);
    // without spend authorization keys there are no such signatures
    let proofs = vec![VoteProof(vec![1]), VoteProof(vec![2])];
    let ballot = sign_ballot(unsigned.data.clone(), proofs, &rcvs, None).unwrap();
    assert!(ballot.witnesses.sp_signatures.is_none());
    assert!(validate_proof(&ballot, &election(false), &[true, true]).is_ok());
}

#[test]
fn the_builder_signs_only_what_balances() {
    let unsigned = balanced_ballot(false);
    let proofs = || vec![VoteProof(vec![1]), VoteProof(vec![2])];
    // other trapdoors than those of the value commitments
    match sign_ballot(unsigned.data.clone(), proofs(), &[scalar(11), scalar(13)], None) {
        Err(VoteError::InvalidBallot(msg)) => assert_eq!(msg, "Notes do not match Votes"),
        other => panic!("{:?}", other.is_ok()),
    }
    // value commitments that spend more than they pay
    let mut data = unsigned.data.clone();
    data.actions[0].cv_net = ballot_commitment(4, 4, 11);
    match sign_ballot(data, proofs(), &[scalar(11), scalar(12)], None) {
        Err(VoteError::InvalidBallot(msg)) => assert_eq!(msg, "Notes do not match Votes"),
        other => panic!("{:?}", other.is_ok()),
    }
    // a spend authorization key that is not the action's
    let keys = [scalar(5), scalar(7)];
    match sign_ballot(
        unsigned.data.clone(),
        proofs(),
        &[scalar(11), scalar(12)],
        Some(&keys),
    ) {
        Err(VoteError::InvalidBallot(msg)) => assert_eq!(msg, "Spend key does not match action"),
        other => panic!("{:?}", other.is_ok()),
    }
    // an action with a part of another length
    let mut data = unsigned.data.clone();
    data.actions[1].enc.pop();
    match sign_ballot(data, proofs(), &[scalar(11), scalar(12)], None) {
        Err(VoteError::InvalidBallot(msg)) => assert_eq!(msg, "Malformed ballot"),
        other => panic!("{:?}", other.is_ok()),
    }
}

#[test]
fn each_signature_of_the_builder_verifies_under_its_key() {
    let unsigned = balanced_ballot(false);
    let proofs = vec![VoteProof(vec![1]), VoteProof(vec![2])];
    let keys = [scalar(5), scalar(6)];
    let ballot =
        sign_ballot(unsigned.data.clone(), proofs, &[scalar(11), scalar(12)], Some(&keys)).unwrap();
    let sighash = ballot.data.sighash();
    let sigs = ballot.witnesses.sp_signatures.as_ref().unwrap();
    for j in 0..2 {
        let rk: [u8; 32] = ballot.data.actions[j].rk.clone().try_into().unwrap();
        let vk = VerificationKey::<SpendAuth>::try_from(rk).unwrap();
        let sig: [u8; 64] = sigs[j].0.clone().try_into().unwrap();
        assert!(vk.verify(&sighash, &sig.into()).is_ok());
    }
    let bvk: [u8; 32] = (&VerificationKey::from(
        &SigningKey::<Binding>::try_from((trapdoor(11) + &trapdoor(12)).to_bytes()).unwrap(),
    ))
        .into();
    let vk = VerificationKey::<Binding>::try_from(bvk).unwrap();
    let sig: [u8; 64] = ballot.witnesses.binding_signature.clone().try_into().unwrap();
    assert!(vk.verify(&sighash, &sig.into()).is_ok());
}

#[test]
fn the_builder_refuses_what_it_cannot_sign() {
    let unsigned = balanced_ballot(false);
    let proofs = || vec![VoteProof(vec![1]), VoteProof(vec![2])];
    match sign_ballot(unsigned.data.clone(), proofs(), &[scalar(11), [0xff; 32]], None) {
        Err(VoteError::InvalidBallot(msg)) => assert_eq!(msg, "Invalid signing key"),
        other => panic!("{:?}", other.is_ok()),
    }
    let keys = [scalar(5), [0xff; 32]];
    match sign_ballot(
        unsigned.data.clone(),
        proofs(),
        &[scalar(11), scalar(12)],
        Some(&keys),
    ) {
        Err(VoteError::InvalidBallot(msg)) => assert_eq!(msg, "Invalid signing key"),
        other => panic!("{:?}", other.is_ok()),
    }
    match sign_ballot(unsigned.data.clone(), proofs(), &[scalar(11)], None) {
        Err(VoteError::InvalidBallot(msg)) => assert_eq!(msg, "Malformed ballot"),
        other => panic!("{:?}", other.is_ok()),
    }
    match sign_ballot(
        unsigned.data.clone(),
        vec![VoteProof(vec![1])],
        &[scalar(11), scalar(12)],
        None,
    ) {
        Err(VoteError::InvalidBallot(msg)) => assert_eq!(msg, "Malformed ballot"),
        other => panic!("{:?}", other.is_ok()),
    }
}

fn plan(input: Option<usize>, candidate: Option<usize>, spent: u64, received: u64) -> ActionPlan {
    ActionPlan {
        input,
        candidate,
        spent,
        received,
    }
}

#[test]
fn notes_are_paired_with_the_candidates_that_get_votes() {
    assert_eq!(
        plan_actions(&[3, 7], &[4, 6]).unwrap(),
        vec![plan(Some(0), Some(0), 3, 4), plan(Some(1), Some(1), 7, 6)]
    );
    assert_eq!(
        plan_actions(&[10], &[0, 4, 0, 6]).unwrap(),
        vec![plan(Some(0), Some(1), 10, 4), plan(None, Some(3), 0, 6)]
    );
    assert_eq!(
        plan_actions(&[1, 2, 3], &[0, 6]).unwrap(),
        vec![
            plan(Some(0), Some(1), 1, 6),
            plan(Some(1), None, 2, 0),
            plan(Some(2), None, 3, 0)
        ]
    );
    assert_eq!(plan_actions(&[], &[0, 0]).unwrap(), vec![]);
    assert_eq!(
        plan_actions(&[0], &[0]).unwrap(),
        vec![plan(Some(0), None, 0, 0)]
    );
    match plan_actions(&[3, 7], &[4, 7]) {
        Err(VoteError::InvalidBallot(msg)) => assert_eq!(msg, "Notes do not match Votes"),
        other => panic!("{:?}", other),
    }
}

#[test]
fn a_plan_spends_what_it_pays() {
    let values = [3u64, 7, 1, 9];
    let weights = [0u64, 12, 0, 0, 8];
    let actions = plan_actions(&values, &weights).unwrap();
    let spent: u64 = actions.iter().map(|a| a.spent).sum();
    let received: u64 = actions.iter().map(|a| a.received).sum();
    assert_eq!(spent, 20);
    assert_eq!(received, 20);
    assert_eq!(actions.len(), 4);
}

#[test]
fn the_public_input_holds_the_elections_anchors_unchanged() {
    let ballot = balanced_ballot(false);
    let mut e = election(false);
    e.cmx = (0..32).collect();
    e.nf = (100..132).collect();
    let domain = vec![3u8; 32];
    let instance = public_instance(&ballot, &e, &domain, 1).unwrap();
    assert_eq!(instance.cmx_root, (0..32).collect::<Vec<u8>>());
    assert_eq!(instance.nf_root, (100..132).collect::<Vec<u8>>());
    assert_eq!(instance.cv_net, ballot.data.actions[1].cv_net);
    assert_eq!(instance.domain_nf, vec![41u8; 32]);
    assert_eq!(instance.rk, ballot.data.actions[1].rk);
    assert_eq!(instance.cmx, vec![51u8; 32]);
    assert_eq!(instance.domain, domain);
    assert!(public_instance(&ballot, &e, &domain, 2).is_none());
}

#[test]
fn errors_map_to_exit_codes() {
    assert_eq!(VoteError::InvalidBallot("x".to_string()).exit_code(), 2);
    assert_eq!(VoteError::OutOfRange(3).exit_code(), 2);
    assert_eq!(VoteError::DoubleNullifier("00".to_string()).exit_code(), 3);
    assert_eq!(VoteError::MissingSignature.exit_code(), 3);
    assert_eq!(VoteError::InvalidSignature.exit_code(), 3);
    assert_eq!(VoteError::InvalidProof.exit_code(), 3);
    assert_eq!(VoteError::InvalidAnchor.exit_code(), 3);
}

#[test]
fn an_action_with_a_part_of_another_length_is_malformed() {
    for part in 0..3 {
        let mut ballot = balanced_ballot(false);
        let a = &mut ballot.data.actions[0];
        match part {
            0 => a.cmx.push(0),
            1 => a.epk.truncate(31),
            _ => a.enc.push(0),
        }
        assert!(matches!(
            validate_proof(&ballot, &election(false), &[true, true]),
            Err(VoteError::InvalidBallot(_))
        ));
    }
}
