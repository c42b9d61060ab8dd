//! The two-to-one hash compression function of the accumulator.
//!
//! The hash itself is the Poseidon permutation over the proof system's
//! field, supplied by an outside implementation and handed in as a
//! capability: callers construct one `Poseidon` instance (loading its
//! round constants once) and pass it to every compression. The result is
//! a function of the two inputs alone, so this module names it
//! `spec_hash2` and states nothing further of it; every contract of the
//! accumulator speaks of the hash through that name.

use vstd::prelude::*;
use crate::field::FieldElement;
use ff_ce::PrimeField;
use poseidon_rs::Fr;
use poseidon_rs::FrRepr;
use poseidon_rs::Poseidon;

verus! {

/// The Poseidon hasher of the outside implementation: a bundle of fixed,
/// publicly known round constants. Opaque to the verifier; every instance
/// computes the same function.
#[verifier::external_type_specification]
#[verifier::external_body]
pub struct ExPoseidon(Poseidon);

/// The value of the two-to-one hash compression function on a pair of
/// field elements.
pub uninterp spec fn spec_hash2(left: nat, right: nat) -> nat;

/// Relies on poseidon_rs::Poseidon::hash: the Poseidon hash of two field
/// elements, a deterministic function of its two inputs alone (the
/// instance only carries the fixed round constants), returned as a
/// canonical (fully reduced) element; and on ff_ce's Fr::from_repr /
/// into_repr, which move between canonical little-endian limbs and field
/// elements (from_repr accepts exactly the values below the modulus).
#[verifier::external_body]
pub(crate) fn poseidon_hash_pair(
    hasher: &Poseidon,
    left: &FieldElement,
    right: &FieldElement,
) -> (r: FieldElement)
    requires
        left.canonical(),
        right.canonical(),
    ensures
        r@ == spec_hash2(left@, right@),
        r.canonical(),
{
    let l = Fr::from_repr(FrRepr([left.l0, left.l1, left.l2, left.l3])).unwrap();
    let rt = Fr::from_repr(FrRepr([right.l0, right.l1, right.l2, right.l3])).unwrap();
    let h = hasher.hash(vec![l, rt]).unwrap();
    let out = h.into_repr().0;
    FieldElement { l0: out[0], l1: out[1], l2: out[2], l3: out[3] }
}

} // verus!
