use crate::field::le_nat;
use orchard::primitives::redpallas::{Binding, Signature, SigningKey, SpendAuth, VerificationKey};
use orchard::value::{ValueCommitTrapdoor, ValueCommitment};
use vstd::prelude::*;

verus! {

/// Whether `sig` is a valid RedPallas spend authorization signature of `msg`
/// under the verification key that `rk` encodes.
pub uninterp spec fn spend_auth_verifies(rk: Seq<u8>, msg: Seq<u8>, sig: Seq<u8>) -> bool;

/// Whether `sig` is a valid RedPallas binding signature of `msg` under the
/// verification key that `bvk` encodes.
pub uninterp spec fn binding_verifies(bvk: Seq<u8>, msg: Seq<u8>, sig: Seq<u8>) -> bool;

/// The encoding of the sum of two value commitments, where both encodings
/// are valid.
pub uninterp spec fn cv_sum_of(a: Seq<u8>, b: Seq<u8>) -> Option<Seq<u8>>;

/// The encoding of the RedPallas binding verification key of the signing key
/// that `bsk` encodes, where it encodes one.
pub uninterp spec fn binding_vk_of(bsk: Seq<u8>) -> Option<Seq<u8>>;

/// The encoding of the RedPallas spend authorization verification key of the
/// signing key that `ask` encodes, where it encodes one.
pub uninterp spec fn spend_vk_of(ask: Seq<u8>) -> Option<Seq<u8>>;

/// `VerificationKey::<SpendAuth>::verify` of `orchard::primitives::redpallas`,
/// on the key read with `try_from`: false too where the bytes encode no key.
#[verifier::external_body]
pub(crate) fn verify_spend_auth(rk: &[u8; 32], msg: &[u8], sig: &[u8; 64]) -> (ok: bool)
    ensures
        ok == spend_auth_verifies(rk@, msg@, sig@),
{
    match VerificationKey::<SpendAuth>::try_from(*rk) {
        Ok(vk) => vk.verify(msg, &Signature::<SpendAuth>::from(*sig)).is_ok(),
        Err(_) => false,
    }
}

/// `VerificationKey::<Binding>::verify` of `orchard::primitives::redpallas`,
/// on the key read with `try_from`: false too where the bytes encode no key.
#[verifier::external_body]
pub(crate) fn verify_binding(bvk: &[u8; 32], msg: &[u8], sig: &[u8; 64]) -> (ok: bool)
    ensures
        ok == binding_verifies(bvk@, msg@, sig@),
{
    match VerificationKey::<Binding>::try_from(*bvk) {
        Ok(vk) => vk.verify(msg, &Signature::<Binding>::from(*sig)).is_ok(),
        Err(_) => false,
    }
}

/// `Add` of `orchard::value::ValueCommitment`, between `from_bytes` and
/// `to_bytes`: `None` where one of the encodings is not valid.
#[verifier::external_body]
pub(crate) fn add_commitments(a: &[u8; 32], b: &[u8; 32]) -> (r: Option<[u8; 32]>)
    ensures
        r.is_some() == cv_sum_of(a@, b@).is_some(),
        r.is_some() ==> r.unwrap()@ == cv_sum_of(a@, b@).unwrap(),
{
    let x = Option::<ValueCommitment>::from(ValueCommitment::from_bytes(a))?;
    let y = Option::<ValueCommitment>::from(ValueCommitment::from_bytes(b))?;
    Some((x + &y).to_bytes())
}

/// The order of the Pallas curve, the modulus of its scalars:
/// `0x40000000000000000000000000000000224698fc0994a8dd8c46eb2100000001`.
pub open spec fn scalar_modulus() -> nat {
    0x40000000000000000000000000000000nat * 0x10000000000000000nat * 0x10000000000000000nat
        + 0x224698fc0994a8dd8c46eb2100000001nat
}

/// `Add` of `orchard::value::ValueCommitTrapdoor`, between `from_bytes` and
/// `to_bytes`: the sum of two scalars in canonical encoding, `None` where one
/// of the encodings is not canonical.
#[verifier::external_body]
pub(crate) fn add_trapdoors(a: &[u8; 32], b: &[u8; 32]) -> (r: Option<[u8; 32]>)
    ensures
        r.is_some() == (le_nat(a@) < scalar_modulus() && le_nat(b@) < scalar_modulus()),
        r.is_some() ==> le_nat(r.unwrap()@) == (le_nat(a@) + le_nat(b@)) % scalar_modulus(),
{
    let x = Option::<ValueCommitTrapdoor>::from(ValueCommitTrapdoor::from_bytes(*a))?;
    let y = Option::<ValueCommitTrapdoor>::from(ValueCommitTrapdoor::from_bytes(*b))?;
    Some((x + &y).to_bytes())
}

/// `From<&SigningKey<Binding>>` for `VerificationKey<Binding>` of
/// `orchard::primitives::redpallas`, on the key read with `try_from`: the
/// verification key of a signing key, `None` where the bytes are no canonical
/// scalar.
#[verifier::external_body]
pub(crate) fn binding_verification_key(bsk: &[u8; 32]) -> (r: Option<[u8; 32]>)
    ensures
        r.is_some() == (le_nat(bsk@) < scalar_modulus()),
        r.is_some() == binding_vk_of(bsk@).is_some(),
        r.is_some() ==> r.unwrap()@ == binding_vk_of(bsk@).unwrap(),
{
    match SigningKey::<Binding>::try_from(*bsk) {
        Ok(sk) => Some((&VerificationKey::from(&sk)).into()),
        Err(_) => None,
    }
}

/// `From<&SigningKey<SpendAuth>>` for `VerificationKey<SpendAuth>` of
/// `orchard::primitives::redpallas`, on the key read with `try_from`: the
/// verification key of a signing key, `None` where the bytes are no canonical
/// scalar.
#[verifier::external_body]
pub(crate) fn spend_verification_key(ask: &[u8; 32]) -> (r: Option<[u8; 32]>)
    ensures
        r.is_some() == (le_nat(ask@) < scalar_modulus()),
        r.is_some() == spend_vk_of(ask@).is_some(),
        r.is_some() ==> r.unwrap()@ == spend_vk_of(ask@).unwrap(),
{
    match SigningKey::<SpendAuth>::try_from(*ask) {
        Ok(sk) => Some((&VerificationKey::from(&sk)).into()),
        Err(_) => None,
    }
}

/// `SigningKey::<Binding>::sign` of `orchard::primitives::redpallas`, with the
/// thread's random number generator, on the key read with `try_from`: a
/// signature, which differs from call to call, or `None` where the bytes are
/// no canonical scalar. Whatever the generator gave, the signature verifies
/// under the verification key of the signing key.
#[verifier::external_body]
pub(crate) fn sign_binding(bsk: &[u8; 32], msg: &[u8]) -> (r: Option<[u8; 64]>)
    ensures
        r.is_some() == (le_nat(bsk@) < scalar_modulus()),
        r.is_some() ==> binding_vk_of(bsk@).is_some() && binding_verifies(
            binding_vk_of(bsk@).unwrap(),
            msg@,
            r.unwrap()@,
        ),
{
    match SigningKey::<Binding>::try_from(*bsk) {
        Ok(sk) => Some((&sk.sign(rand::rng(), msg)).into()),
        Err(_) => None,
    }
}

/// `SigningKey::<SpendAuth>::sign` of `orchard::primitives::redpallas`, with
/// the thread's random number generator, on the key read with `try_from`: a
/// signature, which differs from call to call, or `None` where the bytes are
/// no canonical scalar. Whatever the generator gave, the signature verifies
/// under the verification key of the signing key.
#[verifier::external_body]
pub(crate) fn sign_spend_auth(ask: &[u8; 32], msg: &[u8]) -> (r: Option<[u8; 64]>)
    ensures
        r.is_some() == (le_nat(ask@) < scalar_modulus()),
        r.is_some() ==> spend_vk_of(ask@).is_some() && spend_auth_verifies(
            spend_vk_of(ask@).unwrap(),
            msg@,
            r.unwrap()@,
        ),
{
    match SigningKey::<SpendAuth>::try_from(*ask) {
        Ok(sk) => Some((&sk.sign(rand::rng(), msg)).into()),
        Err(_) => None,
    }
}

} // verus!
