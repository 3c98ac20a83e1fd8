use crate::bytes::{copy_bytes, fresh, hex_of, hex_string, holds_bytes, rows};
use crate::errors::VoteError;
use vstd::prelude::*;

verus! {

/// The domain nullifiers that the accepted ballots have revealed, in the
/// order in which they were accepted.
pub struct Tally {
    pub seen: Vec<Vec<u8>>,
}

/// Whether a tally that held `before` accepts the nullifiers `nfs` and then
/// holds `after`: each of them is new, and they are appended in their order.
pub open spec fn accepted(before: Seq<Seq<u8>>, after: Seq<Seq<u8>>, nfs: Seq<Seq<u8>>) -> bool {
    &&& forall|k: int| 0 <= k < nfs.len() ==> #[trigger] fresh(before, nfs, k)
    &&& after == before + nfs
}

impl Tally {
    /// A tally that has accepted no ballot.
    pub fn new() -> (t: Tally)
        ensures
            t.seen@.len() == 0,
    {
        Tally { seen: Vec::new() }
    }

    /// Takes in the domain nullifiers that a validated ballot reveals.
    ///
    /// Fails with `DoubleNullifier`, naming the first nullifier that was
    /// revealed before, by an accepted ballot or earlier in this one; the
    /// tally is then unchanged.
    pub fn accept(&mut self, nfs: &Vec<Vec<u8>>) -> (r: Result<(), VoteError>)
        ensures
            match r {
                Ok(_) => accepted(rows(old(self).seen@), rows(final(self).seen@), rows(nfs@)),
                Err(e) => exists|k: int|
                    {
                        &&& 0 <= k < nfs@.len()
                        &&& !#[trigger] fresh(rows(old(self).seen@), rows(nfs@), k)
                        &&& forall|i: int|
                            0 <= i < k ==> #[trigger] fresh(rows(old(self).seen@), rows(nfs@), i)
                        &&& e matches VoteError::DoubleNullifier(s) && s@ == hex_of(nfs@[k]@)
                        &&& final(self).seen == old(self).seen
                    },
            },
    {
        let ghost seen = rows(self.seen@);
        let mut k: usize = 0;
        while k < nfs.len()
            invariant
                k <= nfs.len(),
                self.seen == old(self).seen,
                seen == rows(self.seen@),
                forall|i: int| 0 <= i < k ==> #[trigger] fresh(seen, rows(nfs@), i),
            decreases nfs.len() - k,
        {
            let n = self.seen.len();
            assert(rows(self.seen@).take(n as int) =~= seen);
            assert(rows(nfs@)[k as int] == nfs@[k as int]@);
            if holds_bytes(&self.seen, n, &nfs[k]) || holds_bytes(nfs, k, &nfs[k]) {
                assert(!fresh(seen, rows(nfs@), k as int));
                return Err(VoteError::DoubleNullifier(hex_string(nfs[k].as_slice())));
            }
            k += 1;
        }
        k = 0;
        assert(seen + rows(nfs@).take(0) =~= seen);
        while k < nfs.len()
            invariant
                k <= nfs.len(),
                seen == rows(old(self).seen@),
                rows(self.seen@) == seen + rows(nfs@).take(k as int),
            decreases nfs.len() - k,
        {
            let ghost was = rows(self.seen@);
            self.seen.push(copy_bytes(&nfs[k]));
            assert(rows(self.seen@) =~= was.push(nfs@[k as int]@));
            assert(rows(nfs@).take(k + 1) =~= rows(nfs@).take(k as int).push(nfs@[k as int]@));
            assert(rows(self.seen@) =~= seen + rows(nfs@).take(k + 1));
            k += 1;
        }
        assert(rows(nfs@).take(k as int) =~= rows(nfs@));
        Ok(())
    }
}

/// A nullifier that an accepted ballot revealed is refused ever after: once
/// a ballot that reveals it is accepted, no ballot that reveals it is.
pub proof fn lemma_second_reveal_is_refused(
    before: Seq<Seq<u8>>,
    after: Seq<Seq<u8>>,
    first: Seq<Seq<u8>>,
    second: Seq<Seq<u8>>,
    later: Seq<Seq<u8>>,
    nf: Seq<u8>,
)
    requires
        accepted(before, after, first),
        first.contains(nf),
        second.contains(nf),
    ensures
        !accepted(after, later, second),
{
    let i = choose|i: int| 0 <= i < first.len() && first[i] == nf;
    let k = choose|k: int| 0 <= k < second.len() && second[k] == nf;
    assert(after[before.len() + i] == nf);
    assert(!fresh(after, second, k));
}

/// The nullifiers of an accepted ballot are distinct.
pub proof fn lemma_accepted_are_distinct(
    before: Seq<Seq<u8>>,
    after: Seq<Seq<u8>>,
    nfs: Seq<Seq<u8>>,
    i: int,
    j: int,
)
    requires
        accepted(before, after, nfs),
        0 <= i < j < nfs.len(),
    ensures
        nfs[i] != nfs[j],
{
    assert(fresh(before, nfs, j));
    assert(nfs.take(j)[i] == nfs[i]);
}

} // verus!
