//! How ids tell a sequence from its reverse complement.
//!
//! Where reverse complements are indexed, every sequence is followed by its
//! reverse complement: the even ids are the sequences as they were given,
//! and each odd id is the reverse complement of the id before it.

use crate::structs::solutions::Orientation;
use vstd::prelude::*;

verus! {

pub open spec fn spec_companion_id(id: usize, reversals: bool) -> usize {
    if !reversals {
        id
    } else if id % 2 == 0 {
        (id + 1) as usize
    } else {
        (id - 1) as usize
    }
}

pub open spec fn spec_for_reversed_string(id: usize) -> bool {
    id % 2 == 1
}

pub open spec fn spec_relative_orientation(id_a: usize, id_b: usize, reversals: bool) -> Orientation {
    if reversals && id_a % 2 != id_b % 2 {
        Orientation::Reversed
    } else {
        Orientation::Normal
    }
}

/// The id of the reverse complement of `id`; `id` itself where reverse
/// complements are not indexed.
#[verifier::when_used_as_spec(spec_companion_id)]
pub fn companion_id(id: usize, reversals: bool) -> (r: usize)
    ensures
        r == spec_companion_id(id, reversals),
        reversals ==> r != id && spec_companion_id(r, reversals) == id,
{
    if !reversals {
        id
    } else if id % 2 == 0 {
        id + 1
    } else {
        id - 1
    }
}

/// Whether `id` is the reverse complement of a given sequence.
#[verifier::when_used_as_spec(spec_for_reversed_string)]
pub fn for_reversed_string(id: usize) -> (r: bool)
    ensures
        r == spec_for_reversed_string(id),
{
    id % 2 == 1
}

/// Whether `id_a` and `id_b` are read on the same strand.
#[verifier::when_used_as_spec(spec_relative_orientation)]
pub fn relative_orientation(id_a: usize, id_b: usize, reversals: bool) -> (r: Orientation)
    ensures
        r == spec_relative_orientation(id_a, id_b, reversals),
{
    if reversals && id_a % 2 != id_b % 2 {
        Orientation::Reversed
    } else {
        Orientation::Normal
    }
}

} // verus!
