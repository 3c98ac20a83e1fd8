use ff::{Field, PrimeField};
use zcash_vote::errors::VoteError;
use zcash_vote::field::Fp;
use zcash_vote::hash::empty_hash_at;
use zcash_vote::path::calculate_merkle_paths;
use zcash_vote::prevhash::PreviousHashes;
use zcash_vote::trees::{
    build_nf_ranges, compute_cmx_root, compute_nf_root, find_nf_range, is_ascending,
    locate_nullifier, pad_cmxs, sort_nullifiers,
};

fn minus(n: u64) -> Fp {
    // p - n, through the outside field
    let v = -pasta_curves::Fp::from(n);
    Fp::from_bytes(&v.to_repr()).unwrap()
}

#[test]
fn ranges_of_no_nullifier_are_empty() {
    let leaves = build_nf_ranges(&[]);
    assert!(leaves.is_empty());
    assert_eq!(compute_nf_root(&[]), empty_hash_at(32));
}

#[test]
fn ranges_around_one_nullifier() {
    let leaves = build_nf_ranges(&[Fp::from_u64(5)]);
    assert_eq!(
        leaves,
        vec![Fp::from_u64(0), Fp::from_u64(4), Fp::from_u64(6), minus(1)]
    );
}

#[test]
fn last_leaf_is_minus_one() {
    let leaves = build_nf_ranges(&[Fp::from_u64(5)]);
    let expected = (-pasta_curves::Fp::ONE).to_repr();
    assert_eq!(leaves[3].to_bytes(), expected);
    let mut p_minus_one = [0u8; 32];
    p_minus_one[..16].copy_from_slice(&0x224698fc094cf91b992d30ed00000000u128.to_le_bytes());
    p_minus_one[16..].copy_from_slice(&0x40000000000000000000000000000000u128.to_le_bytes());
    assert_eq!(leaves[3].to_bytes(), p_minus_one);
}

#[test]
fn consecutive_nullifiers_leave_no_empty_range() {
    let leaves = build_nf_ranges(&[Fp::from_u64(5), Fp::from_u64(6)]);
    assert_eq!(
        leaves,
        vec![Fp::from_u64(0), Fp::from_u64(4), Fp::from_u64(7), minus(1)]
    );
}

#[test]
fn nullifier_zero_starts_no_range() {
    let leaves = build_nf_ranges(&[Fp::from_u64(0)]);
    assert_eq!(leaves, vec![Fp::from_u64(1), minus(1)]);
}

#[test]
fn largest_nullifier_ends_the_ranges() {
    let leaves = build_nf_ranges(&[minus(1)]);
    assert_eq!(leaves, vec![Fp::from_u64(0), minus(2)]);
}

#[test]
fn two_nullifiers_give_three_ranges() {
    let leaves = build_nf_ranges(&[Fp::from_u64(5), Fp::from_u64(7)]);
    assert_eq!(
        leaves,
        vec![
            Fp::from_u64(0),
            Fp::from_u64(4),
            Fp::from_u64(6),
            Fp::from_u64(6),
            Fp::from_u64(8),
            minus(1)
        ]
    );
}

#[test]
fn search_inside_a_range_returns_its_start() {
    let leaves = build_nf_ranges(&[Fp::from_u64(5)]);
    let (position, start) = find_nf_range(&leaves, &Fp::from_u64(3)).unwrap();
    assert_eq!(position, 0);
    assert_eq!(start, Fp::from_u64(0));
    let (position, start) = find_nf_range(&leaves, &Fp::from_u64(1000)).unwrap();
    assert_eq!(position, 2);
    assert_eq!(start, Fp::from_u64(6));
}

#[test]
fn search_on_a_boundary_returns_the_start_of_the_range() {
    let leaves = build_nf_ranges(&[Fp::from_u64(5)]);
    let (position, start) = find_nf_range(&leaves, &Fp::from_u64(4)).unwrap();
    assert_eq!(position, 0);
    assert_eq!(start, Fp::from_u64(0));
    let (position, start) = find_nf_range(&leaves, &Fp::from_u64(0)).unwrap();
    assert_eq!(position, 0);
    assert_eq!(start, Fp::from_u64(0));
    let (position, start) = find_nf_range(&leaves, &minus(1)).unwrap();
    assert_eq!(position, 2);
    assert_eq!(start, Fp::from_u64(6));
}

#[test]
fn search_for_a_used_nullifier_is_a_double_nullifier() {
    let leaves = build_nf_ranges(&[Fp::from_u64(5)]);
    let nf = Fp::from_u64(5);
    match find_nf_range(&leaves, &nf) {
        Err(VoteError::DoubleNullifier(s)) => {
            assert_eq!(s, hex::encode(nf.to_bytes()));
            assert_eq!(
                s,
                "0500000000000000000000000000000000000000000000000000000000000000"
            );
        }
        other => panic!("{:?}", other),
    }
}

#[test]
fn hex_of_a_nullifier_has_the_high_digit_first() {
    let leaves = build_nf_ranges(&[Fp::from_u64(0xab1f)]);
    match find_nf_range(&leaves, &Fp::from_u64(0xab1f)) {
        Err(VoteError::DoubleNullifier(s)) => {
            assert_eq!(
                s,
                "1fab000000000000000000000000000000000000000000000000000000000000"
            );
        }
        other => panic!("{:?}", other),
    }
}

#[test]
fn the_value_between_two_nullifiers_is_a_range_of_its_own() {
    let leaves = build_nf_ranges(&[Fp::from_u64(5), Fp::from_u64(7)]);
    let (position, start) = find_nf_range(&leaves, &Fp::from_u64(6)).unwrap();
    assert_eq!(position, 2);
    assert_eq!(start, Fp::from_u64(6));
    assert!(matches!(
        find_nf_range(&leaves, &Fp::from_u64(7)),
        Err(VoteError::DoubleNullifier(_))
    ));
}

#[test]
fn search_without_ranges_finds_nothing() {
    assert!(matches!(
        find_nf_range(&[], &Fp::from_u64(3)),
        Err(VoteError::DoubleNullifier(_))
    ));
}

#[test]
fn every_unused_value_lies_in_a_range_and_no_used_one() {
    let used = [2u64, 3, 9];
    let nfs: Vec<Fp> = used.iter().map(|v| Fp::from_u64(*v)).collect();
    assert!(is_ascending(&nfs));
    let leaves = build_nf_ranges(&nfs);
    for v in 0..12u64 {
        let r = find_nf_range(&leaves, &Fp::from_u64(v));
        if used.contains(&v) {
            assert!(matches!(r, Err(VoteError::DoubleNullifier(_))));
        } else {
            let (position, start) = r.unwrap();
            assert_eq!(position % 2, 0);
            assert_eq!(start, leaves[position as usize]);
            let a = pasta_curves::Fp::from_repr(start.to_bytes()).unwrap();
            let b = pasta_curves::Fp::from_repr(leaves[position as usize + 1].to_bytes()).unwrap();
            assert!(a <= pasta_curves::Fp::from(v));
            assert!(pasta_curves::Fp::from(v) <= b);
        }
    }
}

#[test]
fn ascending_means_sorted_without_repeats() {
    assert!(is_ascending(&[]));
    assert!(is_ascending(&[Fp::from_u64(4)]));
    assert!(is_ascending(&[Fp::from_u64(4), Fp::from_u64(5), minus(1)]));
    assert!(!is_ascending(&[Fp::from_u64(4), Fp::from_u64(4)]));
    assert!(!is_ascending(&[Fp::from_u64(5), Fp::from_u64(4)]));
    assert!(!is_ascending(&[Fp::from_u64(1), minus(1), Fp::from_u64(3)]));
}

#[test]
fn nullifier_anchor_is_the_root_over_the_ranges() {
    let nfs = [Fp::from_u64(5), Fp::from_u64(7)];
    let leaves = build_nf_ranges(&nfs);
    let (root, _) = calculate_merkle_paths(&PreviousHashes::new(), &[], &leaves).unwrap();
    assert_eq!(compute_nf_root(&nfs), root);
    assert_ne!(compute_nf_root(&nfs), compute_nf_root(&[Fp::from_u64(5)]));
}

#[test]
fn commitment_anchor_comes_with_the_last_leaf() {
    let cmxs = [Fp::from_u64(11), Fp::from_u64(12), Fp::from_u64(13)];
    let (root, paths) = calculate_merkle_paths(&PreviousHashes::new(), &[2], &cmxs).unwrap();
    let (anchor, frontier) = compute_cmx_root(&cmxs).unwrap();
    let frontier = frontier.unwrap();
    assert_eq!(anchor, root);
    assert_eq!(frontier.position, 2);
    assert_eq!(frontier.leaf, Fp::from_u64(13));
    assert_eq!(frontier.ommers, paths[0].path.to_vec());
    let (anchor, frontier) = compute_cmx_root(&[]).unwrap();
    assert_eq!(anchor, empty_hash_at(32));
    assert!(frontier.is_none());
}

#[test]
fn an_odd_count_of_commitments_is_padded() {
    let mut cmxs = vec![Fp::from_u64(11), Fp::from_u64(12), Fp::from_u64(13)];
    pad_cmxs(&mut cmxs);
    assert_eq!(
        cmxs,
        vec![Fp::from_u64(11), Fp::from_u64(12), Fp::from_u64(13), Fp::from_u64(2)]
    );
    pad_cmxs(&mut cmxs);
    assert_eq!(cmxs.len(), 4);
}

#[test]
fn a_nullifier_is_located_among_those_of_the_snapshot() {
    let nfs = [Fp::from_u64(5), Fp::from_u64(7)];
    assert_eq!(
        locate_nullifier(&nfs, &Fp::from_u64(3)).unwrap(),
        (0, Fp::from_u64(0))
    );
    assert_eq!(
        locate_nullifier(&nfs, &Fp::from_u64(6)).unwrap(),
        (2, Fp::from_u64(6))
    );
    assert_eq!(
        locate_nullifier(&nfs, &minus(1)).unwrap(),
        (4, Fp::from_u64(8))
    );
    for used in [5u64, 7] {
        assert!(matches!(
            locate_nullifier(&nfs, &Fp::from_u64(used)),
            Err(VoteError::DoubleNullifier(_))
        ));
    }
    // a snapshot without nullifiers has no ranges
    assert!(matches!(
        locate_nullifier(&[], &Fp::from_u64(3)),
        Err(VoteError::DoubleNullifier(_))
    ));
}

#[test]
fn nullifiers_are_sorted_by_their_values() {
    let mut nfs = vec![
        Fp::from_u64(256),
        minus(1),
        Fp::from_u64(3),
        Fp::from_u64(255),
        Fp::from_u64(0),
    ];
    assert!(sort_nullifiers(&mut nfs).is_ok());
    assert_eq!(
        nfs,
        vec![
            Fp::from_u64(0),
            Fp::from_u64(3),
            Fp::from_u64(255),
            Fp::from_u64(256),
            minus(1)
        ]
    );
    assert!(is_ascending(&nfs));
    let mut none: Vec<Fp> = vec![];
    assert!(sort_nullifiers(&mut none).is_ok());
}

#[test]
fn a_nullifier_that_occurs_twice_is_found_by_sorting() {
    let mut nfs = vec![
        Fp::from_u64(9),
        Fp::from_u64(3),
        Fp::from_u64(9),
        Fp::from_u64(1),
    ];
    match sort_nullifiers(&mut nfs) {
        Err(VoteError::DoubleNullifier(s)) => {
            assert_eq!(s, hex::encode(Fp::from_u64(9).to_bytes()))
        }
        other => panic!("{:?}", other),
    }
    assert_eq!(
        nfs,
        vec![
            Fp::from_u64(1),
            Fp::from_u64(3),
            Fp::from_u64(9),
            Fp::from_u64(9)
        ]
    );
}
