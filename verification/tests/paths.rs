use incrementalmerkletree::{Hashable, Level};
use orchard::note::ExtractedNoteCommitment;
use orchard::tree::MerkleHashOrchard;
use zcash_vote::errors::VoteError;
use ff::PrimeField;
use zcash_vote::field::{field_elements, Fp};
use zcash_vote::hash::{blake2b_256, cmx_hash, empty_hash_at};
use zcash_vote::path::{calculate_merkle_paths, MerklePath};
use zcash_vote::prevhash::PreviousHashes;

fn leaves(n: u64) -> Vec<Fp> {
    (0..n).map(|i| Fp::from_u64(100 + i)).collect()
}

#[test]
fn field_elements_are_read_from_canonical_bytes_only() {
    let mut p = [0u8; 32];
    p[..16].copy_from_slice(&0x224698fc094cf91b992d30ed00000001u128.to_le_bytes());
    p[16..].copy_from_slice(&0x40000000000000000000000000000000u128.to_le_bytes());
    assert!(Fp::from_bytes(&p).is_none());
    assert!(Fp::from_bytes(&[0xff; 32]).is_none());
    let mut below = p;
    below[0] = 0;
    assert_eq!(Fp::from_bytes(&below).unwrap().to_bytes(), below);
    let mut seven = [0u8; 32];
    seven[0] = 7;
    assert_eq!(Fp::from_u64(7).to_bytes(), seven);
    assert_eq!(Fp::from_bytes(&seven).unwrap(), Fp::from_u64(7));
    assert_eq!(Fp::zero().to_bytes(), [0u8; 32]);
    assert_eq!(Fp::one(), Fp::from_u64(1));
    let mut big = [0u8; 32];
    big[..8].copy_from_slice(&u64::MAX.to_le_bytes());
    assert_eq!(Fp::from_u64(u64::MAX).to_bytes(), big);
}

#[test]
fn node_hash_is_the_orchard_merkle_hash() {
    let a = Fp::from_u64(11);
    let b = Fp::from_u64(12);
    let l = MerkleHashOrchard::from_bytes(&a.to_bytes()).unwrap();
    let r = MerkleHashOrchard::from_bytes(&b.to_bytes()).unwrap();
    for layer in [0u8, 1, 31] {
        let expected = MerkleHashOrchard::combine(Level::from(layer), &l, &r).to_bytes();
        let h = cmx_hash(layer, &a, &b);
        assert_eq!(h.to_bytes(), expected);
        assert_ne!(h, a);
        assert_ne!(h, b);
    }
    assert_ne!(cmx_hash(0, &a, &b), cmx_hash(1, &a, &b));
    assert_ne!(cmx_hash(0, &a, &b), cmx_hash(0, &b, &a));
}

#[test]
fn empty_hashes_are_the_empty_roots() {
    assert_eq!(empty_hash_at(0), Fp::from_u64(2));
    assert_eq!(
        empty_hash_at(1),
        cmx_hash(0, &empty_hash_at(0), &empty_hash_at(0))
    );
    for layer in [0u8, 1, 5, 32] {
        assert_eq!(
            empty_hash_at(layer).to_bytes(),
            MerkleHashOrchard::empty_root(Level::from(layer)).to_bytes()
        );
    }
}

#[test]
fn digest_is_blake2b_with_the_personalization() {
    let personal = *b"Zcash_VoteBallot";
    let expected = blake2b_simd::Params::new()
        .hash_length(32)
        .personal(&personal)
        .hash(b"abc");
    assert_eq!(blake2b_256(&personal, b"abc").as_slice(), expected.as_bytes());
    assert_ne!(
        blake2b_256(&personal, b"abc"),
        blake2b_256(b"ZcashVoteSighash", b"abc")
    );
}

#[test]
fn three_commitments_are_padded_with_the_empty_leaf() {
    let a = Fp::from_u64(11);
    let b = Fp::from_u64(12);
    let c = Fp::from_u64(13);
    let mut expected = cmx_hash(
        1,
        &cmx_hash(0, &a, &b),
        &cmx_hash(0, &c, &empty_hash_at(0)),
    );
    for i in 2..32u8 {
        expected = cmx_hash(i, &expected, &empty_hash_at(i));
    }
    let (root, paths) =
        calculate_merkle_paths(&PreviousHashes::new(), &[0, 2], &[a, b, c]).unwrap();
    assert_eq!(root, expected);
    assert_eq!(paths.len(), 2);
    assert_eq!(paths[0].value, a);
    assert_eq!(paths[0].position, 0);
    assert_eq!(paths[0].path[0], b);
    assert_eq!(paths[0].path[1], cmx_hash(0, &c, &empty_hash_at(0)));
    assert_eq!(paths[0].path[2], empty_hash_at(2));
    assert_eq!(paths[1].value, c);
    assert_eq!(paths[1].position, 2);
    assert_eq!(paths[1].path[0], empty_hash_at(0));
    assert_eq!(paths[1].path[1], cmx_hash(0, &a, &b));
    assert_eq!(paths[1].path[31], empty_hash_at(31));
}

#[test]
fn every_path_leads_to_the_root() {
    let cmxs = leaves(7);
    let positions: Vec<u32> = (0..7).collect();
    let (root, paths) =
        calculate_merkle_paths(&PreviousHashes::new(), &positions, &cmxs).unwrap();
    for (i, p) in paths.iter().enumerate() {
        assert_eq!(p.position, i as u32);
        assert_eq!(p.value, cmxs[i]);
        assert_eq!(p.root(), root);
    }
}

#[test]
fn paths_agree_with_the_orchard_tree() {
    let cmxs = leaves(5);
    let (root, paths) = calculate_merkle_paths(&PreviousHashes::new(), &[3], &cmxs).unwrap();
    let auth = paths[0]
        .path
        .map(|h| MerkleHashOrchard::from_bytes(&h.to_bytes()).unwrap());
    let path = orchard::tree::MerklePath::from_parts(3, auth);
    let cmx = ExtractedNoteCommitment::from_bytes(&cmxs[3].to_bytes()).unwrap();
    assert_eq!(path.root(cmx).to_bytes(), root.to_bytes());
}

#[test]
fn the_tree_without_leaves_has_the_empty_root() {
    let (root, paths) = calculate_merkle_paths(&PreviousHashes::new(), &[], &[]).unwrap();
    assert_eq!(root, empty_hash_at(32));
    assert!(paths.is_empty());
}

#[test]
fn a_position_outside_the_slice_is_out_of_range() {
    let cmxs = leaves(3);
    assert!(matches!(
        calculate_merkle_paths(&PreviousHashes::new(), &[1, 7, 9], &cmxs),
        Err(VoteError::OutOfRange(7))
    ));
    assert!(matches!(
        calculate_merkle_paths(&PreviousHashes::new(), &[3], &cmxs),
        Err(VoteError::OutOfRange(3))
    ));
    let mut ph = PreviousHashes::new();
    ph.lefts[1] = Some(Fp::from_u64(77));
    assert!(matches!(
        calculate_merkle_paths(&ph, &[1], &cmxs),
        Err(VoteError::OutOfRange(1))
    ));
    assert!(calculate_merkle_paths(&ph, &[2, 4], &cmxs).is_ok());
}

#[test]
fn frontier_position_is_the_sum_of_the_occupied_layers() {
    let mut ph = PreviousHashes::new();
    assert_eq!(ph.position(), 0);
    ph.lefts[0] = Some(Fp::from_u64(1));
    assert_eq!(ph.position(), 1);
    ph.lefts[1] = Some(Fp::from_u64(1));
    assert_eq!(ph.position(), 3);
    ph.lefts[0] = None;
    ph.lefts[5] = Some(Fp::from_u64(1));
    assert_eq!(ph.position(), 34);
    let mut top = PreviousHashes::new();
    top.lefts[31] = Some(Fp::from_u64(1));
    assert_eq!(top.position(), 1usize << 31);
    let full = PreviousHashes {
        lefts: [Some(Fp::from_u64(1)); 32],
    };
    assert_eq!(full.position(), 0xffff_ffff);
}

#[test]
fn a_slice_behind_a_frontier_gives_the_root_of_the_whole_tree() {
    let all = leaves(6);
    let (root, whole) =
        calculate_merkle_paths(&PreviousHashes::new(), &[3, 4, 5], &all).unwrap();
    // three leaves lie to the left of the slice
    let mut ph = PreviousHashes::new();
    ph.lefts[0] = Some(all[2]);
    ph.lefts[1] = Some(cmx_hash(0, &all[0], &all[1]));
    assert_eq!(ph.position(), 3);
    let (split_root, split) = calculate_merkle_paths(&ph, &[3, 4, 5], &all[3..]).unwrap();
    assert_eq!(split_root, root);
    for (a, b) in whole.iter().zip(split.iter()) {
        assert_eq!(a.position, b.position);
        assert_eq!(a.value, b.value);
        assert_eq!(a.path, b.path);
        assert_eq!(b.root(), root);
    }
    // two leaves to the left: the frontier holds a node at layer 1 only
    let mut ph = PreviousHashes::new();
    ph.lefts[1] = Some(cmx_hash(0, &all[0], &all[1]));
    assert_eq!(ph.position(), 2);
    let (split_root, split) = calculate_merkle_paths(&ph, &[2, 5], &all[2..]).unwrap();
    assert_eq!(split_root, root);
    assert_eq!(split[0].value, all[2]);
    assert_eq!(split[0].path[1], cmx_hash(0, &all[0], &all[1]));
    assert_eq!(split[0].root(), root);
    assert_eq!(split[1].root(), root);
}

#[test]
fn a_tree_state_with_two_leaves_is_carried_up() {
    let all = leaves(4);
    let h01 = cmx_hash(0, &all[0], &all[1]);
    // three leaves: a left leaf and one parent
    let ph = PreviousHashes::from_tree_state(Some(all[2]), None, &[Some(h01)]);
    assert_eq!(ph.position(), 3);
    assert_eq!(ph.lefts[0], Some(all[2]));
    assert_eq!(ph.lefts[1], Some(h01));
    // four leaves: both leaves and one parent
    let ph = PreviousHashes::from_tree_state(Some(all[2]), Some(all[3]), &[Some(h01)]);
    assert_eq!(ph.position(), 4);
    assert_eq!(ph.lefts[0], None);
    assert_eq!(ph.lefts[1], None);
    assert_eq!(
        ph.lefts[2],
        Some(cmx_hash(1, &h01, &cmx_hash(0, &all[2], &all[3])))
    );
    // two leaves: both leaves, no parent
    let ph = PreviousHashes::from_tree_state(Some(all[0]), Some(all[1]), &[]);
    assert_eq!(ph.position(), 2);
    assert_eq!(ph.lefts[0], None);
    assert_eq!(ph.lefts[1], Some(h01));
    // no leaf at all
    let ph = PreviousHashes::from_tree_state(None, None, &[]);
    assert_eq!(ph.position(), 0);
}

#[test]
fn field_arithmetic_is_that_of_the_pallas_base_field() {
    let outside = |f: Fp| pasta_curves::Fp::from_repr(f.to_bytes()).unwrap();
    let minus_one = Fp::one().negated();
    assert_eq!(outside(minus_one), -pasta_curves::Fp::from(1));
    assert_eq!(Fp::from_u64(5).plus(&Fp::from_u64(7)), Fp::from_u64(12));
    assert_eq!(minus_one.plus(&Fp::one()), Fp::zero());
    assert_eq!(minus_one.plus(&Fp::from_u64(3)), Fp::from_u64(2));
    assert_eq!(Fp::from_u64(7).minus(&Fp::from_u64(5)), Fp::from_u64(2));
    assert_eq!(Fp::zero().minus(&Fp::one()), minus_one);
    assert_eq!(Fp::zero().negated(), Fp::zero());
    assert_eq!(Fp::from_u64(3).negated().plus(&Fp::from_u64(3)), Fp::zero());
    assert!(Fp::from_u64(3).is_below(&Fp::from_u64(4)));
    assert!(!Fp::from_u64(4).is_below(&Fp::from_u64(4)));
    assert!(!Fp::from_u64(5).is_below(&Fp::from_u64(4)));
    // 256 is above 255, though its first byte is smaller
    assert!(Fp::from_u64(255).is_below(&Fp::from_u64(256)));
    assert!(Fp::from_u64(u64::MAX).is_below(&minus_one));
    assert_eq!(Fp::default(), Fp::zero());
}

#[test]
fn field_elements_are_read_from_rows_of_32_canonical_bytes() {
    let five = Fp::from_u64(5).to_bytes().to_vec();
    let six = Fp::from_u64(6).to_bytes().to_vec();
    assert_eq!(
        field_elements(&vec![five.clone(), six.clone()]),
        Some(vec![Fp::from_u64(5), Fp::from_u64(6)])
    );
    assert_eq!(field_elements(&vec![]), Some(vec![]));
    assert_eq!(field_elements(&vec![five.clone(), vec![0xff; 32]]), None);
    assert_eq!(field_elements(&vec![five.clone(), vec![1; 31]]), None);
    assert_eq!(Fp::from_slice(&six), Some(Fp::from_u64(6)));
    assert_eq!(Fp::from_slice(&six[..31]), None);
    assert_eq!(Fp::from_slice(&[0xff; 32]), None);
}

#[test]
fn defaults_are_empty() {
    assert_eq!(PreviousHashes::default().position(), 0);
    assert!(PreviousHashes::default().lefts.iter().all(|l| l.is_none()));
    let mp = MerklePath::default();
    assert_eq!(mp.position, 0);
    assert_eq!(mp.value, Fp::zero());
    assert_eq!(mp.path, [Fp::zero(); 32]);
}
