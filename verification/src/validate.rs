use bip0039::{English, Mnemonic};
use vstd::prelude::*;
use zcash_address::unified::{Encoding, Ufvk};

verus! {

/// Whether the text is a BIP 39 mnemonic phrase of the English word list.
pub uninterp spec fn is_mnemonic_phrase(key: Seq<char>) -> bool;

/// Whether the text is the encoding of a unified full viewing key.
pub uninterp spec fn is_unified_fvk(key: Seq<char>) -> bool;

/// `Mnemonic::<English>::from_phrase` of `bip0039`, asked only whether it
/// accepts the phrase.
#[verifier::external_body]
fn parses_as_mnemonic(key: &str) -> (ok: bool)
    ensures
        ok == is_mnemonic_phrase(key@),
{
    Mnemonic::<English>::from_phrase(key).is_ok()
}

/// `Encoding::decode` of `zcash_address::unified::Ufvk`, asked only whether it
/// accepts the text.
#[verifier::external_body]
fn parses_as_ufvk(key: &str) -> (ok: bool)
    ensures
        ok == is_unified_fvk(key@),
{
    Ufvk::decode(key).is_ok()
}

/// Whether `key` is a key that a voter can vote with: a seed phrase or a
/// unified full viewing key.
pub fn validate_key(key: &str) -> (ok: bool)
    ensures
        ok == (is_mnemonic_phrase(key@) || is_unified_fvk(key@)),
{
    if parses_as_mnemonic(key) {
        return true;
    }
    if parses_as_ufvk(key) {
        return true;
    }
    false
}

} // verus!
