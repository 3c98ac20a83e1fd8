use vstd::prelude::*;

verus! {

/// A candidate: the address that votes for it are sent to, and its label.
#[derive(Clone, Debug)]
pub struct CandidateChoice {
    pub address: String,
    pub choice: String,
}

/// What all participants know of an election: its name and question, the
/// window of blocks of its snapshot, its candidates, whether ballots must
/// carry spend authorization signatures, and the two anchors fixed at the
/// snapshot.
#[derive(Clone, Debug)]
pub struct Election {
    pub id: String,
    pub name: String,
    pub start_height: u32,
    pub end_height: u32,
    pub question: String,
    pub candidates: Vec<CandidateChoice>,
    pub signature_required: bool,
    pub cmx: Vec<u8>,
    pub nf: Vec<u8>,
}

} // verus!
