use crate::bytes::{copy_bytes, fresh, hex_of, hex_string, holds_bytes, rows, same_bytes};
use crate::errors::VoteError;
use vstd::prelude::*;

verus! {

/// One action of a compact block, as the block stream gives it.
#[derive(Clone, Debug)]
pub struct CompactOrchardAction {
    pub nullifier: Vec<u8>,
    pub cmx: Vec<u8>,
    pub ephemeral_key: Vec<u8>,
    pub ciphertext: Vec<u8>,
}

/// A note of the voter's own, as it is kept.
#[derive(Clone, Debug)]
pub struct Note {
    pub position: u32,
    pub height: u32,
    pub txid: Vec<u8>,
    pub value: u64,
    pub div: Vec<u8>,
    pub rseed: Vec<u8>,
    pub nf: Vec<u8>,
    pub dnf: Vec<u8>,
    pub rho: Vec<u8>,
}

/// What trial decryption of an action found: the parts of a note that do not
/// depend on where the action stands.
#[derive(Clone, Debug)]
pub struct FoundNote {
    pub scope: u8,
    pub txid: Vec<u8>,
    pub value: u64,
    pub div: Vec<u8>,
    pub rseed: Vec<u8>,
    pub nf: Vec<u8>,
    pub dnf: Vec<u8>,
    pub rho: Vec<u8>,
}

/// A note of the voter's own in the snapshot: the incoming viewing key's scope
/// that found it, the note, and the height at which it was spent, if it was.
#[derive(Clone, Debug)]
pub struct OwnNote {
    pub scope: u8,
    pub note: Note,
    pub spent: Option<u32>,
}

/// The reference data of an election as far as the blocks were read: the
/// commitments and the nullifiers in the order of their actions, the voter's
/// own notes, and the height of the last block read.
pub struct Snapshot {
    pub cmxs: Vec<Vec<u8>>,
    pub nfs: Vec<Vec<u8>>,
    pub notes: Vec<OwnNote>,
    pub height: u32,
}

/// Whether the note holds what trial decryption found, at `position` of a
/// block at `height`.
pub open spec fn same_note(own: OwnNote, found: FoundNote, position: u32, height: u32) -> bool {
    &&& own.scope == found.scope
    &&& own.note.position == position
    &&& own.note.height == height
    &&& own.note.txid@ == found.txid@
    &&& own.note.value == found.value
    &&& own.note.div@ == found.div@
    &&& own.note.rseed@ == found.rseed@
    &&& own.note.nf@ == found.nf@
    &&& own.note.dnf@ == found.dnf@
    &&& own.note.rho@ == found.rho@
}

/// The note that an action at `position` of a block at `height` gives, from
/// what trial decryption found: unspent.
pub open spec fn is_note_of(own: OwnNote, found: FoundNote, position: u32, height: u32) -> bool {
    &&& same_note(own, found, position, height)
    &&& own.spent.is_none()
}

/// The note that an action with the nullifier `nf` gives, from what trial
/// decryption found: spent at once if its own nullifier is `nf`.
pub open spec fn recorded(
    own: OwnNote,
    found: FoundNote,
    position: u32,
    height: u32,
    nf: Seq<u8>,
) -> bool {
    &&& same_note(own, found, position, height)
    &&& own.spent == if found.nf@ == nf {
        Some(height)
    } else {
        None
    }
}

/// Whether `after` is `before` with every note whose nullifier is `nf` marked
/// as spent at `height`, and the others unchanged.
pub open spec fn marked(before: Seq<OwnNote>, after: Seq<OwnNote>, nf: Seq<u8>, height: u32) -> bool {
    &&& after.len() == before.len()
    &&& forall|k: int|
        0 <= k < before.len() ==> {
            &&& (#[trigger] after[k]).scope == before[k].scope
            &&& after[k].note == before[k].note
            &&& after[k].spent == if before[k].note.nf@ == nf {
                Some(height)
            } else {
                before[k].spent
            }
        }
}

impl Snapshot {
    /// The snapshot before any block is read.
    pub fn new() -> (s: Snapshot)
        ensures
            s.cmxs@.len() == 0,
            s.nfs@.len() == 0,
            s.notes@.len() == 0,
            s.height == 0,
    {
        Snapshot { cmxs: Vec::new(), nfs: Vec::new(), notes: Vec::new(), height: 0 }
    }

    /// Records a note that trial decryption found in the action that is about
    /// to be appended: its position is the number of commitments so far.
    pub fn add_note(&mut self, height: u32, found: &FoundNote)
        ensures
            final(self).cmxs == old(self).cmxs,
            final(self).nfs == old(self).nfs,
            final(self).height == old(self).height,
            final(self).notes@.len() == old(self).notes@.len() + 1,
            final(self).notes@.take(old(self).notes@.len() as int) == old(self).notes@,
            is_note_of(
                final(self).notes@.last(),
                *found,
                old(self).cmxs@.len() as u32,
                height,
            ),
    {
        let ghost before = self.notes@;
        let position = #[verifier::truncate]
        (self.cmxs.len() as u32);
        let note = Note {
            position,
            height,
            txid: copy_bytes(&found.txid),
            value: found.value,
            div: copy_bytes(&found.div),
            rseed: copy_bytes(&found.rseed),
            nf: copy_bytes(&found.nf),
            dnf: copy_bytes(&found.dnf),
            rho: copy_bytes(&found.rho),
        };
        self.notes.push(OwnNote { scope: found.scope, note, spent: None });
        assert(self.notes@.take(before.len() as int) =~= before);
    }

    /// Appends an action's nullifier and commitment, and marks as spent at
    /// `height` the own notes that the nullifier spends.
    ///
    /// Fails with `DoubleNullifier` where the snapshot holds the nullifier
    /// already, and is then unchanged: no nullifier occurs twice on the chain.
    pub fn add_action(&mut self, height: u32, action: &CompactOrchardAction) -> (r: Result<
        (),
        VoteError,
    >)
        ensures
            match r {
                Ok(_) => {
                    &&& !rows(old(self).nfs@).contains(action.nullifier@)
                    &&& rows(final(self).cmxs@) == rows(old(self).cmxs@).push(action.cmx@)
                    &&& rows(final(self).nfs@) == rows(old(self).nfs@).push(action.nullifier@)
                    &&& final(self).height == old(self).height
                    &&& marked(old(self).notes@, final(self).notes@, action.nullifier@, height)
                },
                Err(e) => {
                    &&& rows(old(self).nfs@).contains(action.nullifier@)
                    &&& *final(self) == *old(self)
                    &&& e matches VoteError::DoubleNullifier(s) && s@ == hex_of(
                        action.nullifier@,
                    )
                },
            },
    {
        let n = self.nfs.len();
        assert(rows(self.nfs@).take(n as int) =~= rows(self.nfs@));
        if holds_bytes(&self.nfs, n, &action.nullifier) {
            return Err(VoteError::DoubleNullifier(hex_string(action.nullifier.as_slice())));
        }
        self.append_action(height, action);
        Ok(())
    }

    /// Takes in one action with the notes that trial decryption found in it:
    /// records the notes at the action's position, then appends the action's
    /// nullifier and commitment and marks the own notes that it spends.
    ///
    /// Fails with `DoubleNullifier` where the snapshot holds the nullifier
    /// already, and is then unchanged.
    pub fn handle_action(
        &mut self,
        height: u32,
        action: &CompactOrchardAction,
        found: &[FoundNote],
    ) -> (r: Result<(), VoteError>)
        ensures
            match r {
                Ok(_) => {
                    let known = old(self).notes@.len() as int;
                    &&& !rows(old(self).nfs@).contains(action.nullifier@)
                    &&& rows(final(self).cmxs@) == rows(old(self).cmxs@).push(action.cmx@)
                    &&& rows(final(self).nfs@) == rows(old(self).nfs@).push(action.nullifier@)
                    &&& final(self).height == old(self).height
                    &&& final(self).notes@.len() == known + found@.len()
                    &&& marked(
                        old(self).notes@,
                        final(self).notes@.take(known),
                        action.nullifier@,
                        height,
                    )
                    &&& forall|m: int|
                        0 <= m < found@.len() ==> recorded(
                            #[trigger] final(self).notes@[known + m],
                            found@[m],
                            old(self).cmxs@.len() as u32,
                            height,
                            action.nullifier@,
                        )
                },
                Err(e) => {
                    &&& rows(old(self).nfs@).contains(action.nullifier@)
                    &&& *final(self) == *old(self)
                    &&& e matches VoteError::DoubleNullifier(s) && s@ == hex_of(
                        action.nullifier@,
                    )
                },
            },
    {
        let n = self.nfs.len();
        assert(rows(self.nfs@).take(n as int) =~= rows(self.nfs@));
        if holds_bytes(&self.nfs, n, &action.nullifier) {
            return Err(VoteError::DoubleNullifier(hex_string(action.nullifier.as_slice())));
        }
        let ghost known = self.notes@.len() as int;
        let ghost position = self.cmxs@.len() as u32;
        let mut m: usize = 0;
        while m < found.len()
            invariant
                m <= found.len(),
                known == old(self).notes@.len(),
                position == old(self).cmxs@.len() as u32,
                self.cmxs == old(self).cmxs,
                self.nfs == old(self).nfs,
                self.height == old(self).height,
                self.notes@.len() == known + m,
                self.notes@.take(known) == old(self).notes@,
                forall|i: int|
                    0 <= i < m ==> is_note_of(
                        #[trigger] self.notes@[known + i],
                        found@[i],
                        position,
                        height,
                    ),
            decreases found.len() - m,
        {
            let ghost was = self.notes@;
            self.add_note(height, &found[m]);
            proof {
                assert(self.notes@.take(known) =~= was.take(known));
                assert forall|i: int| 0 <= i < m + 1 implies is_note_of(
                    #[trigger] self.notes@[known + i],
                    found@[i],
                    position,
                    height,
                ) by {
                    if i < m {
                        assert(self.notes@.take(was.len() as int)[known + i] == was[known + i]);
                    }
                }
            }
            m += 1;
        }
        let ghost all = self.notes@;
        self.append_action(height, action);
        proof {
            assert forall|k: int| 0 <= k < known implies {
                &&& (#[trigger] self.notes@.take(known)[k]).scope == old(self).notes@[k].scope
                &&& self.notes@.take(known)[k].note == old(self).notes@[k].note
                &&& self.notes@.take(known)[k].spent == if old(self).notes@[k].note.nf@
                    == action.nullifier@ {
                    Some(height)
                } else {
                    old(self).notes@[k].spent
                }
            } by {
                assert(all.take(known)[k] == all[k]);
                assert(self.notes@[k].note == all[k].note);
            }
            assert forall|i: int| 0 <= i < found@.len() implies recorded(
                #[trigger] self.notes@[known + i],
                found@[i],
                position,
                height,
                action.nullifier@,
            ) by {
                assert(is_note_of(all[known + i], found@[i], position, height));
                assert(self.notes@[known + i].note == all[known + i].note);
            }
        }
        Ok(())
    }

    /// Appends an action whose nullifier the snapshot does not hold yet.
    fn append_action(&mut self, height: u32, action: &CompactOrchardAction)
        ensures
            rows(final(self).cmxs@) == rows(old(self).cmxs@).push(action.cmx@),
            rows(final(self).nfs@) == rows(old(self).nfs@).push(action.nullifier@),
            final(self).height == old(self).height,
            marked(old(self).notes@, final(self).notes@, action.nullifier@, height),
    {
        let ghost before = self.notes@;
        let ghost cmxs = rows(self.cmxs@);
        let ghost nfs = rows(self.nfs@);
        self.nfs.push(copy_bytes(&action.nullifier));
        self.cmxs.push(copy_bytes(&action.cmx));
        assert(rows(self.cmxs@) =~= cmxs.push(action.cmx@));
        assert(rows(self.nfs@) =~= nfs.push(action.nullifier@));
        let mut k: usize = 0;
        while k < self.notes.len()
            invariant
                k <= self.notes.len(),
                self.notes@.len() == before.len(),
                rows(self.cmxs@) == cmxs.push(action.cmx@),
                rows(self.nfs@) == nfs.push(action.nullifier@),
                self.height == old(self).height,
                marked(before.take(k as int), self.notes@.take(k as int), action.nullifier@, height),
                forall|i: int| k <= i < before.len() ==> self.notes@[i] == before[i],
            decreases self.notes.len() - k,
        {
            if same_bytes(&self.notes[k].note.nf, &action.nullifier) {
                let ghost was = self.notes@;
                self.notes[k].spent = Some(height);
                assert(self.notes@.take(k as int) =~= was.take(k as int));
            }
            proof {
                let now = self.notes@.take(k + 1);
                let then = before.take(k + 1);
                assert forall|i: int| 0 <= i < k + 1 implies {
                    &&& (#[trigger] now[i]).scope == then[i].scope
                    &&& now[i].note == then[i].note
                    &&& now[i].spent == if then[i].note.nf@ == action.nullifier@ {
                        Some(height)
                    } else {
                        then[i].spent
                    }
                } by {
                    if i < k {
                        assert(self.notes@.take(k as int)[i] == now[i]);
                        assert(before.take(k as int)[i] == then[i]);
                    }
                }
            }
            k += 1;
        }
        assert(self.notes@.take(k as int) =~= self.notes@);
        assert(before.take(k as int) =~= before);
    }
}

/// The commitments of the actions, in their order.
pub open spec fn cmxs_of(actions: Seq<CompactOrchardAction>) -> Seq<Seq<u8>> {
    actions.map_values(|a: CompactOrchardAction| a.cmx@)
}

/// The nullifiers of the actions, in their order.
pub open spec fn nfs_of(actions: Seq<CompactOrchardAction>) -> Seq<Seq<u8>> {
    actions.map_values(|a: CompactOrchardAction| a.nullifier@)
}

/// Whether one of the actions has the nullifier `nf`.
pub open spec fn spends(actions: Seq<CompactOrchardAction>, nf: Seq<u8>) -> bool {
    exists|i: int| 0 <= i < actions.len() && (#[trigger] actions[i]).nullifier@ == nf
}

/// Whether `after` is `before` with every note that one of the actions spends
/// marked as spent at `height`, and the others unchanged.
pub open spec fn marked_by(
    before: Seq<OwnNote>,
    after: Seq<OwnNote>,
    actions: Seq<CompactOrchardAction>,
    height: u32,
) -> bool {
    &&& after.len() == before.len()
    &&& forall|k: int|
        0 <= k < before.len() ==> {
            &&& (#[trigger] after[k]).scope == before[k].scope
            &&& after[k].note == before[k].note
            &&& after[k].spent == if spends(actions, before[k].note.nf@) {
                Some(height)
            } else {
                before[k].spent
            }
        }
}

/// Whether a snapshot that was `before` took in the actions of a block at
/// `height` and is `after`: no nullifier of theirs was there before or occurs
/// twice among them, their commitments and nullifiers are appended in their
/// order, the own notes that they spend are marked, and the height is the
/// block's.
pub open spec fn took_in(
    before: Snapshot,
    after: Snapshot,
    height: u32,
    actions: Seq<CompactOrchardAction>,
) -> bool {
    &&& forall|k: int|
        0 <= k < actions.len() ==> #[trigger] fresh(rows(before.nfs@), nfs_of(actions), k)
    &&& rows(after.cmxs@) == rows(before.cmxs@) + cmxs_of(actions)
    &&& rows(after.nfs@) == rows(before.nfs@) + nfs_of(actions)
    &&& marked_by(before.notes@, after.notes@, actions, height)
    &&& after.height == height
}

/// Takes in the actions of one block, in their order: appends each action's
/// nullifier and commitment and marks the own notes that it spends, then
/// records the block's height. Returns the number of actions.
///
/// Fails with `DoubleNullifier` at the first action whose nullifier the
/// snapshot holds already. The actions before it are then taken in, and the
/// height is not the block's: the block is not read.
pub fn handle_block(snapshot: &mut Snapshot, height: u32, actions: &[CompactOrchardAction]) -> (r:
    Result<usize, VoteError>)
    ensures
        match r {
            Ok(n) => n == actions@.len() && took_in(*old(snapshot), *final(snapshot), height, actions@),
            Err(e) => exists|k: int|
                {
                    &&& 0 <= k < actions@.len()
                    &&& !#[trigger] fresh(rows(old(snapshot).nfs@), nfs_of(actions@), k)
                    &&& forall|i: int|
                        0 <= i < k ==> #[trigger] fresh(
                            rows(old(snapshot).nfs@),
                            nfs_of(actions@),
                            i,
                        )
                    &&& rows(final(snapshot).cmxs@) == rows(old(snapshot).cmxs@) + cmxs_of(
                        actions@.take(k),
                    )
                    &&& rows(final(snapshot).nfs@) == rows(old(snapshot).nfs@) + nfs_of(
                        actions@.take(k),
                    )
                    &&& final(snapshot).height == old(snapshot).height
                    &&& e matches VoteError::DoubleNullifier(s) && s@ == hex_of(
                        actions@[k].nullifier@,
                    )
                },
        },
{
    let ghost notes = snapshot.notes@;
    let ghost cmxs = rows(snapshot.cmxs@);
    let ghost nfs = rows(snapshot.nfs@);
    let ghost all = nfs_of(actions@);
    let mut position: usize = 0;
    assert(cmxs + cmxs_of(actions@.take(0)) =~= cmxs);
    assert(nfs + nfs_of(actions@.take(0)) =~= nfs);
    while position < actions.len()
        invariant
            position <= actions.len(),
            cmxs == rows(old(snapshot).cmxs@),
            nfs == rows(old(snapshot).nfs@),
            all == nfs_of(actions@),
            snapshot.height == old(snapshot).height,
            rows(snapshot.cmxs@) == cmxs + cmxs_of(actions@.take(position as int)),
            rows(snapshot.nfs@) == nfs + nfs_of(actions@.take(position as int)),
            marked_by(notes, snapshot.notes@, actions@.take(position as int), height),
            notes == old(snapshot).notes@,
            forall|i: int| 0 <= i < position ==> #[trigger] fresh(nfs, all, i),
        decreases actions.len() - position,
    {
        let ghost was = snapshot.notes@;
        let ghost held = rows(snapshot.nfs@);
        let ghost upto = actions@.take(position as int);
        let ghost next = actions@.take(position + 1);
        let ghost nf = actions@[position as int].nullifier@;
        proof {
            assert(all[position as int] == nf);
            assert(nfs_of(upto) =~= all.take(position as int));
            // the snapshot holds the nullifier exactly if it is not new
            if held.contains(nf) {
                let at = choose|at: int| 0 <= at < held.len() && held[at] == nf;
                if at < nfs.len() {
                    assert(nfs[at] == nf);
                } else {
                    assert(all.take(position as int)[at - nfs.len()] == nf);
                }
                assert(!fresh(nfs, all, position as int));
            } else {
                if nfs.contains(nf) {
                    let at = choose|at: int| 0 <= at < nfs.len() && nfs[at] == nf;
                    assert(held[at] == nf);
                }
                if all.take(position as int).contains(nf) {
                    let at = choose|at: int|
                        0 <= at < position && all.take(position as int)[at] == nf;
                    assert(held[nfs.len() + at] == nf);
                }
                assert(fresh(nfs, all, position as int));
            }
        }
        match snapshot.add_action(height, &actions[position]) {
            Ok(_) => {},
            Err(e) => {
                return Err(e);
            },
        }
        proof {
            assert(cmxs_of(next) =~= cmxs_of(upto).push(actions@[position as int].cmx@));
            assert(nfs_of(next) =~= nfs_of(upto).push(nf));
            assert(rows(snapshot.cmxs@) =~= cmxs + cmxs_of(next));
            assert(rows(snapshot.nfs@) =~= nfs + nfs_of(next));
            assert forall|k: int| 0 <= k < notes.len() implies {
                &&& (#[trigger] snapshot.notes@[k]).scope == notes[k].scope
                &&& snapshot.notes@[k].note == notes[k].note
                &&& snapshot.notes@[k].spent == if spends(next, notes[k].note.nf@) {
                    Some(height)
                } else {
                    notes[k].spent
                }
            } by {
                let own = notes[k].note.nf@;
                assert(was[k].note == notes[k].note);
                if spends(upto, own) {
                    let i = choose|i: int| 0 <= i < upto.len() && (#[trigger] upto[i]).nullifier@ == own;
                    assert(next[i].nullifier@ == own);
                } else if nf == own {
                    assert(next[position as int].nullifier@ == own);
                } else {
                    assert forall|i: int| 0 <= i < next.len() implies (#[trigger] next[i]).nullifier@
                        != own by {
                        if i < position {
                            assert(upto[i].nullifier@ != own);
                        }
                    }
                }
            }
        }
        position += 1;
    }
    assert(actions@.take(position as int) =~= actions@);
    snapshot.height = height;
    Ok(position)
}

/// Reading is repeatable: two snapshots that hold the same arrays and take in
/// the same block hold the same arrays afterwards, and stand at the same
/// height.
pub proof fn lemma_reading_is_repeatable(
    first: Snapshot,
    second: Snapshot,
    after_first: Snapshot,
    after_second: Snapshot,
    height: u32,
    actions: Seq<CompactOrchardAction>,
)
    requires
        rows(first.cmxs@) == rows(second.cmxs@),
        rows(first.nfs@) == rows(second.nfs@),
        took_in(first, after_first, height, actions),
        took_in(second, after_second, height, actions),
    ensures
        rows(after_first.cmxs@) == rows(after_second.cmxs@),
        rows(after_first.nfs@) == rows(after_second.nfs@),
        after_first.height == after_second.height,
{
}

/// Reading can be resumed: a snapshot that took in one block and then the
/// next holds the arrays of a snapshot that took in the actions of both at
/// once.
pub proof fn lemma_reading_resumes(
    start: Snapshot,
    middle: Snapshot,
    end: Snapshot,
    first_height: u32,
    next_height: u32,
    first: Seq<CompactOrchardAction>,
    next: Seq<CompactOrchardAction>,
)
    requires
        took_in(start, middle, first_height, first),
        took_in(middle, end, next_height, next),
    ensures
        rows(end.cmxs@) == rows(start.cmxs@) + cmxs_of(first + next),
        rows(end.nfs@) == rows(start.nfs@) + nfs_of(first + next),
        end.height == next_height,
{
    assert(cmxs_of(first + next) =~= cmxs_of(first) + cmxs_of(next));
    assert(nfs_of(first + next) =~= nfs_of(first) + nfs_of(next));
    assert(rows(end.cmxs@) =~= rows(start.cmxs@) + cmxs_of(first + next));
    assert(rows(end.nfs@) =~= rows(start.nfs@) + nfs_of(first + next));
}

} // verus!
