use crate::hash::{blake2b_256, blake2b_256_of};
use vstd::bytes::{
    lemma_auto_spec_u32_to_from_le_bytes, spec_u32_from_le_bytes, spec_u32_to_le_bytes,
    u32_from_le_bytes, u32_to_le_bytes,
};
use vstd::slice::slice_subrange;
use vstd::prelude::*;

verus! {

/// The two Merkle roots that a ballot's proofs are anchored to.
#[derive(Clone, Debug)]
pub struct BallotAnchors {
    pub nf: Vec<u8>,
    pub cmx: Vec<u8>,
}

/// One spend and output pair of a ballot.
#[derive(Clone, Debug)]
pub struct BallotAction {
    pub cv_net: Vec<u8>,
    pub rk: Vec<u8>,
    pub nf: Vec<u8>,
    pub cmx: Vec<u8>,
    pub epk: Vec<u8>,
    pub enc: Vec<u8>,
}

impl BallotAction {
    /// The bytes of the action in the order in which they are hashed: value
    /// commitment, verification key, nullifier, commitment, ephemeral key,
    /// ciphertext.
    pub open spec fn encoding(&self) -> Seq<u8> {
        self.cv_net@ + self.rk@ + self.nf@ + self.cmx@ + self.epk@ + self.enc@
    }

    /// Whether each part has its length on the wire: 32 bytes, and 84 for the
    /// ciphertext.
    pub open spec fn well_formed(&self) -> bool {
        &&& self.cv_net@.len() == 32
        &&& self.rk@.len() == 32
        &&& self.nf@.len() == 32
        &&& self.cmx@.len() == 32
        &&& self.epk@.len() == 32
        &&& self.enc@.len() == 84
    }

    /// Appends the action's encoding to `w`.
    pub fn write(&self, w: &mut Vec<u8>)
        ensures
            final(w)@ == old(w)@ + self.encoding(),
    {
        let ghost before = w@;
        w.extend_from_slice(self.cv_net.as_slice());
        w.extend_from_slice(self.rk.as_slice());
        w.extend_from_slice(self.nf.as_slice());
        w.extend_from_slice(self.cmx.as_slice());
        w.extend_from_slice(self.epk.as_slice());
        w.extend_from_slice(self.enc.as_slice());
        assert(w@ =~= before + self.encoding());
    }
}

/// The encodings of the actions, one after the other.
pub open spec fn actions_encoding(actions: Seq<BallotAction>) -> Seq<u8>
    decreases actions.len(),
{
    if actions.len() == 0 {
        Seq::empty()
    } else {
        actions_encoding(actions.drop_last()) + actions.last().encoding()
    }
}

/// The bytes of `bytes` from `from` to `to`.
fn copy_range(bytes: &[u8], from: usize, to: usize) -> (r: Vec<u8>)
    requires
        from <= to <= bytes.len(),
    ensures
        r@ == bytes@.subrange(from as int, to as int),
{
    let mut r: Vec<u8> = Vec::new();
    let mut i: usize = from;
    while i < to
        invariant
            from <= i <= to <= bytes.len(),
            r@ == bytes@.subrange(from as int, i as int),
        decreases to - i,
    {
        r.push(bytes[i]);
        assert(r@ =~= bytes@.subrange(from as int, i + 1));
        i += 1;
    }
    r
}

/// Reads the action whose encoding starts at `at`.
fn read_action(bytes: &[u8], at: usize) -> (a: BallotAction)
    requires
        at + 244 <= bytes.len(),
    ensures
        a.well_formed(),
        a.encoding() == bytes@.subrange(at as int, at + 244),
{
    let a = BallotAction {
        cv_net: copy_range(bytes, at, at + 32),
        rk: copy_range(bytes, at + 32, at + 64),
        nf: copy_range(bytes, at + 64, at + 96),
        cmx: copy_range(bytes, at + 96, at + 128),
        epk: copy_range(bytes, at + 128, at + 160),
        enc: copy_range(bytes, at + 160, at + 244),
    };
    assert(a.encoding() =~= bytes@.subrange(at as int, at + 244));
    a
}

/// Whether every action has its lengths on the wire.
pub open spec fn all_well_formed(actions: Seq<BallotAction>) -> bool {
    forall|i: int| 0 <= i < actions.len() ==> (#[trigger] actions[i]).well_formed()
}

/// Whether the bytes are the encoding of a version and of actions with their
/// lengths on the wire: eight bytes, then 244 for each action that the count
/// announces.
pub open spec fn is_encoding(bytes: Seq<u8>) -> bool {
    &&& bytes.len() >= 8
    &&& bytes.len() == 8 + 244 * spec_u32_from_le_bytes(bytes.subrange(4, 8))
}

/// Well-formed actions take 244 bytes each.
pub proof fn lemma_actions_len(actions: Seq<BallotAction>)
    requires
        all_well_formed(actions),
    ensures
        actions_encoding(actions).len() == 244 * actions.len(),
    decreases actions.len(),
{
    if actions.len() > 0 {
        assert(all_well_formed(actions.drop_last())) by {
            assert forall|i: int| 0 <= i < actions.drop_last().len() implies (
            #[trigger] actions.drop_last()[i]).well_formed() by {
                assert(actions[i].well_formed());
            }
        }
        lemma_actions_len(actions.drop_last());
        assert(actions.last().well_formed());
    }
}

/// The personalization of the ballot signature hash: `Zcash_VoteBallot`.
pub open spec fn sighash_personal() -> Seq<u8> {
    seq![
        0x5au8, 0x63u8, 0x61u8, 0x73u8, 0x68u8, 0x5fu8, 0x56u8, 0x6fu8,
        0x74u8, 0x65u8, 0x42u8, 0x61u8, 0x6cu8, 0x6cu8, 0x6fu8, 0x74u8,
    ]
}

/// What a ballot states in public: the election's domain, the actions and the
/// anchors.
#[derive(Clone, Debug)]
pub struct BallotData {
    pub version: u32,
    pub domain: Vec<u8>,
    pub actions: Vec<BallotAction>,
    pub anchors: BallotAnchors,
}

impl BallotData {
    /// The bytes that are hashed and signed: the version and the number of
    /// actions, each as four little-endian bytes, then the actions.
    pub open spec fn encoding(&self) -> Seq<u8> {
        spec_u32_to_le_bytes(self.version) + spec_u32_to_le_bytes(self.actions@.len() as u32)
            + actions_encoding(self.actions@)
    }

    /// Appends the ballot data's encoding to `w`.
    pub fn write(&self, w: &mut Vec<u8>)
        ensures
            final(w)@ == old(w)@ + self.encoding(),
    {
        let ghost before = w@;
        let version = u32_to_le_bytes(self.version);
        w.extend_from_slice(version.as_slice());
        let n_actions = #[verifier::truncate]
        (self.actions.len() as u32);
        let count = u32_to_le_bytes(n_actions);
        w.extend_from_slice(count.as_slice());
        let ghost head = w@;
        assert(head =~= before + spec_u32_to_le_bytes(self.version) + spec_u32_to_le_bytes(
            self.actions@.len() as u32,
        ));
        let mut i: usize = 0;
        while i < self.actions.len()
            invariant
                i <= self.actions.len(),
                w@ == head + actions_encoding(self.actions@.take(i as int)),
            decreases self.actions.len() - i,
        {
            let ghost done = w@;
            self.actions[i].write(w);
            proof {
                let upto = self.actions@.take(i + 1);
                assert(upto.drop_last() =~= self.actions@.take(i as int));
                assert(upto.last() == self.actions@[i as int]);
                assert(w@ =~= head + actions_encoding(upto));
            }
            i += 1;
        }
        assert(self.actions@.take(i as int) =~= self.actions@);
        assert(w@ =~= before + self.encoding());
    }

    /// Reads ballot data back from its encoding. The encoding holds the
    /// version and the actions; the domain and the anchors are given beside it.
    ///
    /// Returns `None` unless the bytes are eight bytes and then 244 for each
    /// action that the count in them announces.
    pub fn read(bytes: &[u8], domain: Vec<u8>, anchors: BallotAnchors) -> (r: Option<BallotData>)
        ensures
            r.is_some() <==> is_encoding(bytes@),
            r.is_some() ==> {
                &&& r.unwrap().encoding() == bytes@
                &&& all_well_formed(r.unwrap().actions@)
                &&& r.unwrap().domain == domain
                &&& r.unwrap().anchors == anchors
            },
    {
        if bytes.len() < 8 {
            return None;
        }
        let version = u32_from_le_bytes(slice_subrange(bytes, 0, 4));
        let n = u32_from_le_bytes(slice_subrange(bytes, 4, 8));
        let need: u64 = 8 + 244 * (n as u64);
        if bytes.len() as u64 != need {
            return None;
        }
        let mut actions: Vec<BallotAction> = Vec::new();
        let mut j: usize = 0;
        assert(actions_encoding(actions@) =~= bytes@.subrange(8, 8));
        while j < n as usize
            invariant
                j <= n,
                bytes.len() == 8 + 244 * n,
                actions@.len() == j,
                all_well_formed(actions@),
                actions_encoding(actions@) == bytes@.subrange(8, 8 + 244 * j),
            decreases n - j,
        {
            let ghost before = actions@;
            let a = read_action(bytes, 8 + 244 * j);
            actions.push(a);
            proof {
                assert(actions@.drop_last() =~= before);
                assert(actions_encoding(actions@) =~= bytes@.subrange(8, 8 + 244 * (j + 1)));
            }
            j += 1;
        }
        proof {
            lemma_auto_spec_u32_to_from_le_bytes();
            assert(spec_u32_to_le_bytes(version) == bytes@.subrange(0, 4));
            assert(spec_u32_to_le_bytes(n) == bytes@.subrange(4, 8));
            assert(actions@.len() as u32 == n);
            assert(bytes@ =~= bytes@.subrange(0, 4) + bytes@.subrange(4, 8) + bytes@.subrange(
                8,
                8 + 244 * n,
            ));
        }
        Some(BallotData { version, domain, actions, anchors })
    }

    /// The hash that the ballot's signatures sign: BLAKE2b-256 of the
    /// encoding under the personalization `Zcash_VoteBallot`.
    pub fn sighash(&self) -> (h: Vec<u8>)
        ensures
            h@ == blake2b_256_of(sighash_personal(), self.encoding()),
            h@.len() == 32,
    {
        let mut buffer: Vec<u8> = Vec::new();
        self.write(&mut buffer);
        assert(buffer@ =~= self.encoding());
        let personal: [u8; 16] = [
            0x5a, 0x63, 0x61, 0x73, 0x68, 0x5f, 0x56, 0x6f,
            0x74, 0x65, 0x42, 0x61, 0x6c, 0x6c, 0x6f, 0x74,
        ];
        assert(personal@ =~= sighash_personal());
        let digest = blake2b_256(&personal, buffer.as_slice());
        let mut h: Vec<u8> = Vec::new();
        let mut i: usize = 0;
        while i < 32
            invariant
                i <= 32,
                h@ == digest@.take(i as int),
            decreases 32 - i,
        {
            h.push(digest[i]);
            assert(h@ =~= digest@.take(i + 1));
            i += 1;
        }
        assert(digest@.take(32) =~= digest@);
        h
    }
}

/// A zero-knowledge proof of one action.
#[derive(Clone, Debug)]
pub struct VoteProof(pub Vec<u8>);

/// A signature over the ballot's signature hash.
#[derive(Clone, Debug)]
pub struct VoteSignature(pub Vec<u8>);

/// What makes a ballot's data believable: one proof for each action, the
/// spend authorization signatures where they are given, and the binding
/// signature.
#[derive(Clone, Debug)]
pub struct BallotWitnesses {
    pub proofs: Vec<VoteProof>,
    pub sp_signatures: Option<Vec<VoteSignature>>,
    pub binding_signature: Vec<u8>,
}

/// A ballot: its public data and the witnesses for it.
#[derive(Clone, Debug)]
pub struct Ballot {
    pub data: BallotData,
    pub witnesses: BallotWitnesses,
}


/// Whether two actions hold the same bytes in every part.
pub open spec fn same_action(a: BallotAction, b: BallotAction) -> bool {
    &&& a.cv_net@ == b.cv_net@
    &&& a.rk@ == b.rk@
    &&& a.nf@ == b.nf@
    &&& a.cmx@ == b.cmx@
    &&& a.epk@ == b.epk@
    &&& a.enc@ == b.enc@
}

/// Two actions with their lengths on the wire and the same encoding hold the
/// same bytes in every part.
pub proof fn lemma_action_injective(a: BallotAction, b: BallotAction)
    requires
        a.well_formed(),
        b.well_formed(),
        a.encoding() == b.encoding(),
    ensures
        same_action(a, b),
{
    let e = a.encoding();
    let f = b.encoding();
    assert(a.cv_net@ =~= e.subrange(0, 32) && b.cv_net@ =~= f.subrange(0, 32));
    assert(a.rk@ =~= e.subrange(32, 64) && b.rk@ =~= f.subrange(32, 64));
    assert(a.nf@ =~= e.subrange(64, 96) && b.nf@ =~= f.subrange(64, 96));
    assert(a.cmx@ =~= e.subrange(96, 128) && b.cmx@ =~= f.subrange(96, 128));
    assert(a.epk@ =~= e.subrange(128, 160) && b.epk@ =~= f.subrange(128, 160));
    assert(a.enc@ =~= e.subrange(160, 244) && b.enc@ =~= f.subrange(160, 244));
}

/// Two sequences of as many actions, all with their lengths on the wire, that
/// have the same encoding hold the same actions.
pub proof fn lemma_actions_injective(a: Seq<BallotAction>, b: Seq<BallotAction>)
    requires
        a.len() == b.len(),
        all_well_formed(a),
        all_well_formed(b),
        actions_encoding(a) == actions_encoding(b),
    ensures
        forall|i: int| 0 <= i < a.len() ==> same_action(#[trigger] a[i], b[i]),
    decreases a.len(),
{
    if a.len() > 0 {
        let n = a.len() as int;
        let before_a = a.drop_last();
        let before_b = b.drop_last();
        assert(all_well_formed(before_a)) by {
            assert forall|i: int| 0 <= i < before_a.len() implies (#[trigger] before_a[i]).well_formed() by {
                assert(a[i].well_formed());
            }
        }
        assert(all_well_formed(before_b)) by {
            assert forall|i: int| 0 <= i < before_b.len() implies (#[trigger] before_b[i]).well_formed() by {
                assert(b[i].well_formed());
            }
        }
        lemma_actions_len(before_a);
        lemma_actions_len(before_b);
        assert(a.last().well_formed() && b.last().well_formed());
        let whole = actions_encoding(a);
        let cut = 244 * (n - 1);
        assert(actions_encoding(before_a) =~= whole.subrange(0, cut));
        assert(actions_encoding(before_b) =~= whole.subrange(0, cut));
        assert(a.last().encoding() =~= whole.subrange(cut, cut + 244));
        assert(b.last().encoding() =~= whole.subrange(cut, cut + 244));
        lemma_action_injective(a.last(), b.last());
        lemma_actions_injective(before_a, before_b);
        assert forall|i: int| 0 <= i < a.len() implies same_action(#[trigger] a[i], b[i]) by {
            if i < n - 1 {
                assert(same_action(before_a[i], before_b[i]));
            }
        }
    }
}

/// What is written is read back. The encoding of ballot data whose actions
/// have their lengths on the wire, and of which there are fewer than `2^32`, is
/// one that `read` accepts; and what `read` returns for it, data with that
/// encoding and with actions of those lengths, has the same version, the same
/// actions and the same signature hash.
pub proof fn lemma_encoding_round_trip(data: BallotData, back: BallotData)
    requires
        all_well_formed(data.actions@),
        data.actions@.len() <= u32::MAX,
        all_well_formed(back.actions@),
        back.encoding() == data.encoding(),
    ensures
        is_encoding(data.encoding()),
        back.version == data.version,
        back.actions@.len() == data.actions@.len(),
        forall|i: int|
            0 <= i < data.actions@.len() ==> same_action(#[trigger] back.actions@[i], data.actions@[i]),
        blake2b_256_of(sighash_personal(), back.encoding()) == blake2b_256_of(
            sighash_personal(),
            data.encoding(),
        ),
{
    let n = data.actions@.len();
    let e = data.encoding();
    lemma_auto_spec_u32_to_from_le_bytes();
    lemma_actions_len(data.actions@);
    lemma_actions_len(back.actions@);
    let head = spec_u32_to_le_bytes(data.version);
    let count = spec_u32_to_le_bytes(n as u32);
    let back_head = spec_u32_to_le_bytes(back.version);
    let back_count = spec_u32_to_le_bytes(back.actions@.len() as u32);
    assert(head.len() == 4 && count.len() == 4 && back_head.len() == 4 && back_count.len() == 4);
    assert(e.subrange(4, 8) =~= count);
    assert(e.subrange(0, 4) =~= head);
    assert(e.subrange(0, 4) =~= back_head);
    assert(spec_u32_from_le_bytes(head) == data.version);
    assert(spec_u32_from_le_bytes(back_head) == back.version);
    assert(e.len() == 8 + 244 * n);
    assert(e.len() == 8 + 244 * back.actions@.len());
    assert(actions_encoding(data.actions@) =~= e.subrange(8, e.len() as int));
    assert(actions_encoding(back.actions@) =~= e.subrange(8, e.len() as int));
    lemma_actions_injective(back.actions@, data.actions@);
}

} // verus!
