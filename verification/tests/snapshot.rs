use zcash_vote::download::{handle_block, CompactOrchardAction, FoundNote, Snapshot};
use zcash_vote::errors::VoteError;

fn action(n: u8) -> CompactOrchardAction {
    CompactOrchardAction {
        nullifier: vec![n; 32],
        cmx: vec![n + 100; 32],
        ephemeral_key: vec![n; 32],
        ciphertext: vec![n; 52],
    }
}

fn found(nf: u8, value: u64, scope: u8) -> FoundNote {
    FoundNote {
        scope,
        txid: vec![1; 32],
        value,
        div: vec![2; 11],
        rseed: vec![3; 32],
        nf: vec![nf; 32],
        dnf: vec![4; 32],
        rho: vec![5; 32],
    }
}

#[test]
fn actions_are_taken_in_their_order() {
    let mut s = Snapshot::new();
    assert_eq!(handle_block(&mut s, 11, &[action(1), action(2)]).unwrap(), 2);
    assert_eq!(handle_block(&mut s, 12, &[]).unwrap(), 0);
    assert_eq!(handle_block(&mut s, 13, &[action(3)]).unwrap(), 1);
    assert_eq!(s.height, 13);
    assert_eq!(s.nfs, vec![vec![1u8; 32], vec![2u8; 32], vec![3u8; 32]]);
    assert_eq!(
        s.cmxs,
        vec![vec![101u8; 32], vec![102u8; 32], vec![103u8; 32]]
    );
}

#[test]
fn reading_the_same_blocks_twice_gives_the_same_arrays() {
    let blocks = [vec![action(1), action(2)], vec![action(3)]];
    let mut a = Snapshot::new();
    let mut b = Snapshot::new();
    for (i, block) in blocks.iter().enumerate() {
        handle_block(&mut a, 10 + i as u32, block).unwrap();
    }
    for (i, block) in blocks.iter().enumerate() {
        handle_block(&mut b, 10 + i as u32, block).unwrap();
    }
    assert_eq!(a.cmxs, b.cmxs);
    assert_eq!(a.nfs, b.nfs);
    assert_eq!(a.height, b.height);
}

#[test]
fn an_own_note_gets_the_position_of_its_action() {
    let mut s = Snapshot::new();
    handle_block(&mut s, 10, &[action(1), action(2)]).unwrap();
    // the third action holds a note of ours
    s.add_note(11, &found(77, 500, 1));
    s.add_action(11, &action(3)).unwrap();
    assert_eq!(s.notes.len(), 1);
    let own = &s.notes[0];
    assert_eq!(own.scope, 1);
    assert_eq!(own.spent, None);
    assert_eq!(own.note.position, 2);
    assert_eq!(own.note.height, 11);
    assert_eq!(own.note.value, 500);
    assert_eq!(own.note.nf, vec![77u8; 32]);
    assert_eq!(own.note.div, vec![2u8; 11]);
    assert_eq!(own.note.rho, vec![5u8; 32]);
    assert_eq!(s.cmxs.len(), 3);
}

#[test]
fn a_later_action_with_the_notes_nullifier_spends_it() {
    let mut s = Snapshot::new();
    s.handle_action(11, &action(3), &[found(77, 500, 0)]).unwrap();
    s.handle_action(11, &action(4), &[found(78, 600, 0)]).unwrap();
    handle_block(&mut s, 12, &[action(5)]).unwrap();
    assert_eq!(s.notes[0].spent, None);
    handle_block(&mut s, 15, &[action(6), action(77)]).unwrap();
    assert_eq!(s.notes[0].spent, Some(15));
    assert_eq!(s.notes[1].spent, None);
    assert_eq!(s.notes[1].note.position, 1);
    assert_eq!(s.nfs.len(), 5);
}

#[test]
fn a_repeated_nullifier_stops_the_reading() {
    let mut s = Snapshot::new();
    handle_block(&mut s, 10, &[action(1), action(2)]).unwrap();
    // the second action of the next block repeats a nullifier
    match handle_block(&mut s, 11, &[action(3), action(1), action(4)]) {
        Err(VoteError::DoubleNullifier(hex)) => assert_eq!(hex, hex::encode([1u8; 32])),
        other => panic!("{:?}", other),
    }
    assert_eq!(s.height, 10);
    assert_eq!(s.nfs, vec![vec![1u8; 32], vec![2u8; 32], vec![3u8; 32]]);
    assert_eq!(s.cmxs.len(), 3);
    // a nullifier twice in one block
    let mut s = Snapshot::new();
    assert!(matches!(
        handle_block(&mut s, 10, &[action(5), action(5)]),
        Err(VoteError::DoubleNullifier(_))
    ));
    assert_eq!(s.nfs.len(), 1);
    assert_eq!(s.height, 0);
    // one action at a time
    let mut s = Snapshot::new();
    s.add_action(10, &action(7)).unwrap();
    assert!(matches!(
        s.add_action(10, &action(7)),
        Err(VoteError::DoubleNullifier(_))
    ));
    assert!(matches!(
        s.handle_action(10, &action(7), &[found(9, 1, 0)]),
        Err(VoteError::DoubleNullifier(_))
    ));
    assert_eq!(s.nfs.len(), 1);
    assert_eq!(s.cmxs.len(), 1);
    assert!(s.notes.is_empty());
}

#[test]
fn an_action_is_taken_in_with_the_notes_found_in_it() {
    let mut s = Snapshot::new();
    handle_block(&mut s, 10, &[action(1)]).unwrap();
    s.handle_action(11, &action(2), &[found(77, 500, 0), found(2, 600, 1)])
        .unwrap();
    assert_eq!(s.nfs.len(), 2);
    assert_eq!(s.cmxs[1], vec![102u8; 32]);
    assert_eq!(s.notes.len(), 2);
    assert_eq!(s.notes[0].note.position, 1);
    assert_eq!(s.notes[0].note.height, 11);
    assert_eq!(s.notes[0].note.value, 500);
    assert_eq!(s.notes[0].scope, 0);
    assert_eq!(s.notes[0].spent, None);
    assert_eq!(s.notes[1].note.position, 1);
    assert_eq!(s.notes[1].scope, 1);
    // the second note has the nullifier of the action itself
    assert_eq!(s.notes[1].spent, Some(11));
    assert_eq!(s.height, 10);
}
