//! What `==` and the conversion traits mean for a UUID, stated over its
//! bytes and its value.

use vstd::prelude::*;

use crate::{
    lemma_uuid_of_bytes, lemma_uuid_of_value, lemma_uuid_wf, lemma_value_injective,
    lemma_view_injective, Uuid,
};
use crate::error::DecodeError;
use vstd::std_specs::cmp::PartialEqSpec;
use vstd::std_specs::convert::{FromSpec, TryFromSpec};

verus! {

/// Two UUIDs compare equal with `==` exactly when all 16 bytes are equal,
/// which is exactly when their 128-bit values are equal.
pub proof fn law_eq_is_byte_equality(a: Uuid, b: Uuid)
    ensures
        <Uuid as PartialEqSpec>::obeys_eq_spec(),
        a.eq_spec(&b) <==> a@ == b@,
        a.eq_spec(&b) <==> a.value() == b.value(),
        a.eq_spec(&b) <==> a == b,
{
    lemma_uuid_wf(a);
    lemma_uuid_wf(b);
    if a@ == b@ {
        lemma_view_injective(a, b);
    }
    if a.value() == b.value() {
        lemma_value_injective(a, b);
    }
}

/// The conversions keep the bytes: `Uuid::from(bytes)` holds exactly
/// `bytes`, `<[u8; 16]>::from(u)` gives the 16 bytes of `u`,
/// `Uuid::from(n)` has value `n`, `u128::from(u)` is the value of `u`, and
/// `Uuid::try_from(slice)` succeeds with exactly the slice's bytes when it
/// holds 16 of them, and fails otherwise.
pub proof fn law_conversions(bytes: [u8; 16], u: Uuid, n: u128, s: &[u8])
    ensures
        <Uuid as FromSpec<[u8; 16]>>::obeys_from_spec(),
        <Uuid as FromSpec<[u8; 16]>>::from_spec(bytes)@ == bytes@,
        <[u8; 16] as FromSpec<Uuid>>::obeys_from_spec(),
        <[u8; 16] as FromSpec<Uuid>>::from_spec(u)@ == u@,
        <Uuid as FromSpec<u128>>::obeys_from_spec(),
        <Uuid as FromSpec<u128>>::from_spec(n).value() == n as nat,
        <u128 as FromSpec<Uuid>>::obeys_from_spec(),
        <u128 as FromSpec<Uuid>>::from_spec(u) as nat == u.value(),
        <Uuid as TryFromSpec<&[u8]>>::obeys_try_from_spec(),
        s@.len() == 16 ==> (<Uuid as TryFromSpec<&[u8]>>::try_from_spec(s) matches Ok(v) && v@
            == s@),
        s@.len() != 16 ==> <Uuid as TryFromSpec<&[u8]>>::try_from_spec(s) == Err::<Uuid, DecodeError>(
            DecodeError::InvalidLength { encoding: "raw-bytes", expected: 16, got: s@.len() as usize },
        ),
{
    lemma_uuid_wf(u);
    lemma_uuid_of_bytes(bytes@);
    assert(Uuid::spec_from_array(bytes)@ == bytes@);
    assert(Uuid::spec_into_array(u)@ == u@);
    lemma_uuid_of_value(n as nat);
    if s@.len() == 16 {
        lemma_uuid_of_bytes(s@);
    }
}

} // verus!
