//! The order of solutions: by pair, orientation and geometry, as equality
//! is.

use crate::structs::solutions::{Identity, Orientation, Solution};
use std::cmp::Ordering;
use vstd::prelude::*;
use vstd::std_specs::cmp::PartialOrdSpecImpl;

verus! {

/// How two ids or lengths stand to each other.
pub open spec fn order_of_sizes(x: usize, y: usize) -> Ordering {
    if x < y {
        Ordering::Less
    } else if x == y {
        Ordering::Equal
    } else {
        Ordering::Greater
    }
}

/// How two overhangs stand to each other.
pub open spec fn order_of_overhangs(x: i32, y: i32) -> Ordering {
    if x < y {
        Ordering::Less
    } else if x == y {
        Ordering::Equal
    } else {
        Ordering::Greater
    }
}

/// How two orientations stand to each other: the same strand comes before
/// the reverse complement.
pub open spec fn order_of_orientations(x: Orientation, y: Orientation) -> Ordering {
    if x == y {
        Ordering::Equal
    } else if x == Orientation::Normal {
        Ordering::Less
    } else {
        Ordering::Greater
    }
}

/// How two identities stand to each other: by the first id, then the
/// second, the orientation, the two overhangs and the two overlaps.
pub open spec fn order_of_identities(a: Identity, b: Identity) -> Ordering {
    if a.id_a != b.id_a {
        order_of_sizes(a.id_a, b.id_a)
    } else if a.id_b != b.id_b {
        order_of_sizes(a.id_b, b.id_b)
    } else if a.orientation != b.orientation {
        order_of_orientations(a.orientation, b.orientation)
    } else if a.overhang_left_a != b.overhang_left_a {
        order_of_overhangs(a.overhang_left_a, b.overhang_left_a)
    } else if a.overhang_right_b != b.overhang_right_b {
        order_of_overhangs(a.overhang_right_b, b.overhang_right_b)
    } else if a.overlap_a != b.overlap_a {
        order_of_sizes(a.overlap_a, b.overlap_a)
    } else {
        order_of_sizes(a.overlap_b, b.overlap_b)
    }
}

fn compare_sizes(x: usize, y: usize) -> (r: Ordering)
    ensures
        r == order_of_sizes(x, y),
{
    if x < y {
        Ordering::Less
    } else if x == y {
        Ordering::Equal
    } else {
        Ordering::Greater
    }
}

fn compare_overhangs(x: i32, y: i32) -> (r: Ordering)
    ensures
        r == order_of_overhangs(x, y),
{
    if x < y {
        Ordering::Less
    } else if x == y {
        Ordering::Equal
    } else {
        Ordering::Greater
    }
}

fn compare_orientations(x: Orientation, y: Orientation) -> (r: Ordering)
    ensures
        r == order_of_orientations(x, y),
{
    if x == y {
        Ordering::Equal
    } else if x == Orientation::Normal {
        Ordering::Less
    } else {
        Ordering::Greater
    }
}

impl PartialOrd for Solution {
    fn partial_cmp(&self, other: &Self) -> (r: Option<Ordering>) {
        if self.id_a != other.id_a {
            Some(compare_sizes(self.id_a, other.id_a))
        } else if self.id_b != other.id_b {
            Some(compare_sizes(self.id_b, other.id_b))
        } else if self.orientation != other.orientation {
            Some(compare_orientations(self.orientation, other.orientation))
        } else if self.overhang_left_a != other.overhang_left_a {
            Some(compare_overhangs(self.overhang_left_a, other.overhang_left_a))
        } else if self.overhang_right_b != other.overhang_right_b {
            Some(compare_overhangs(self.overhang_right_b, other.overhang_right_b))
        } else if self.overlap_a != other.overlap_a {
            Some(compare_sizes(self.overlap_a, other.overlap_a))
        } else {
            Some(compare_sizes(self.overlap_b, other.overlap_b))
        }
    }
}

impl PartialOrdSpecImpl for Solution {
    open spec fn obeys_partial_cmp_spec() -> bool {
        true
    }

    open spec fn partial_cmp_spec(&self, other: &Self) -> Option<Ordering> {
        Some(order_of_identities(self.identity(), other.identity()))
    }
}

/// Two solutions stand equal in this order exactly when they are equal.
pub proof fn lemma_order_agrees_with_equality(a: Solution, b: Solution)
    ensures
        order_of_identities(a.identity(), b.identity()) == Ordering::Equal <==> a.identity() == b.identity(),
{
}

} // verus!
