//! Candidates, solutions and the sets that hold them.

use crate::useful::companion_id;
use vstd::prelude::*;
use vstd::std_specs::cmp::PartialEqSpecImpl;

verus! {

/// Whether the two sequences of a solution are read on the same strand.
#[derive(Hash, PartialEq, Eq, Debug, PartialOrd, Ord, Clone, Copy, Structural)]
pub enum Orientation {
    Normal,
    Reversed,
}

/// An overlap of the query with sequence `id_b`, in the coordinates of the
/// text store and not yet oriented.
///
/// With `a1 | a2 | a3` the parts of the query before, inside and after the
/// overlap, and `b1 | b2 | b3` those of the matched sequence:
/// `overlap_a` is `a2`, `overlap_b` is `b2`, and `overhang_left_a` is
/// `a1 - b1`, of which at most one is nonzero.
#[derive(Hash, PartialEq, Eq, Debug, Clone, Copy, Structural)]
pub struct Candidate {
    pub id_b: usize,
    pub overlap_a: usize,
    pub overlap_b: usize,
    pub overhang_left_a: i32,
}

impl Candidate {
    /// Length of the query before the overlap.
    pub open spec fn spec_a1(&self) -> nat {
        if self.overhang_left_a > 0 {
            self.overhang_left_a as nat
        } else {
            0
        }
    }

    /// Length of the matched sequence before the overlap.
    pub open spec fn spec_b1(&self) -> nat {
        if self.overhang_left_a < 0 {
            (-self.overhang_left_a) as nat
        } else {
            0
        }
    }

    /// The candidate lies inside a query of length `a_len` and ends at its
    /// last position, and lies inside a matched sequence of length `b_len`.
    pub open spec fn fits(&self, a_len: nat, b_len: nat) -> bool {
        &&& self.spec_a1() + self.overlap_a == a_len
        &&& self.spec_b1() + self.overlap_b <= b_len
    }

    /// Length of the query before the overlap.
    pub fn a1(&self) -> (r: usize)
        ensures
            r == self.spec_a1(),
    {
        if self.overhang_left_a > 0 {
            self.overhang_left_a as usize
        } else {
            0
        }
    }

    pub fn a2(&self) -> (r: usize)
        ensures
            r == self.overlap_a,
    {
        self.overlap_a
    }

    /// Length of the query after the overlap.
    pub fn a3(&self, a_len: usize) -> (r: usize)
        requires
            self.spec_a1() + self.overlap_a <= a_len,
        ensures
            r == a_len - self.spec_a1() - self.overlap_a,
    {
        a_len - self.a1() - self.overlap_a
    }

    /// Length of the matched sequence before the overlap.
    pub fn b1(&self) -> (r: usize)
        ensures
            r == self.spec_b1(),
    {
        if self.overhang_left_a < 0 {
            if self.overhang_left_a == i32::MIN {
                2147483648
            } else {
                (-self.overhang_left_a) as usize
            }
        } else {
            0
        }
    }

    pub fn b2(&self) -> (r: usize)
        ensures
            r == self.overlap_b,
    {
        self.overlap_b
    }

    /// Length of the matched sequence after the overlap.
    pub fn b3(&self, b_len: usize) -> (r: usize)
        requires
            self.spec_b1() + self.overlap_b <= b_len,
        ensures
            r == b_len - self.spec_b1() - self.overlap_b,
    {
        b_len - self.b1() - self.overlap_b
    }
}

/// What makes a solution the one it is: the pair, its orientation and its
/// geometry. The error count and the edit summary only describe it.
pub struct Identity {
    pub id_a: usize,
    pub id_b: usize,
    pub orientation: Orientation,
    pub overhang_left_a: i32,
    pub overhang_right_b: i32,
    pub overlap_a: usize,
    pub overlap_b: usize,
}

impl Identity {
    /// The same overlap with the two sequences in each other's place.
    pub open spec fn v_flip(self) -> Identity {
        Identity {
            id_a: self.id_b,
            id_b: self.id_a,
            orientation: self.orientation,
            overhang_left_a: (-self.overhang_left_a) as i32,
            overhang_right_b: (-self.overhang_right_b) as i32,
            overlap_a: self.overlap_b,
            overlap_b: self.overlap_a,
        }
    }

    /// The same overlap read from the other end: what stuck out on the right
    /// now sticks out on the left.
    pub open spec fn mirror(self) -> Identity {
        Identity {
            overhang_left_a: (-self.overhang_right_b) as i32,
            overhang_right_b: (-self.overhang_left_a) as i32,
            ..self
        }
    }

    /// The same overlap between the reverse complements of both sequences.
    pub open spec fn h_flip(self, reversals: bool) -> Identity {
        Identity {
            id_a: companion_id(self.id_a, reversals),
            id_b: companion_id(self.id_b, reversals),
            ..self
        }.mirror()
    }
}

/// An accepted overlap of sequence `id_a` with sequence `id_b`, oriented.
///
/// `overhang_left_a` is how far `a` starts before `b` (negative when `b`
/// starts first); `overhang_right_b` is how far `b` ends after `a`.
#[derive(Debug, Clone)]
pub struct Solution {
    pub id_a: usize,
    pub id_b: usize,
    pub orientation: Orientation,
    pub overhang_left_a: i32,
    pub overhang_right_b: i32,
    pub overlap_a: usize,
    pub overlap_b: usize,
    pub errors: u32,
    pub cigar: String,
}

impl Solution {
    pub open spec fn identity(&self) -> Identity {
        Identity {
            id_a: self.id_a,
            id_b: self.id_b,
            orientation: self.orientation,
            overhang_left_a: self.overhang_left_a,
            overhang_right_b: self.overhang_right_b,
            overlap_a: self.overlap_a,
            overlap_b: self.overlap_b,
        }
    }

    /// Both overhangs can be negated.
    pub open spec fn flippable(&self) -> bool {
        self.overhang_left_a > i32::MIN && self.overhang_right_b > i32::MIN
    }

    /// Turns the overlap into the same overlap with the two sequences in
    /// each other's place.
    pub fn v_flip(&mut self)
        requires
            old(self).flippable(),
        ensures
            final(self).identity() == old(self).identity().v_flip(),
            final(self).errors == old(self).errors,
            final(self).cigar == old(self).cigar,
    {
        let id_a = self.id_a;
        let overlap_a = self.overlap_a;
        self.overhang_left_a = -self.overhang_left_a;
        self.overhang_right_b = -self.overhang_right_b;
        self.id_a = self.id_b;
        self.id_b = id_a;
        self.overlap_a = self.overlap_b;
        self.overlap_b = overlap_a;
    }

    /// Turns the overlap into the same overlap between the reverse
    /// complements of both sequences.
    pub fn h_flip(&mut self, reversals: bool)
        requires
            old(self).flippable(),
        ensures
            final(self).identity() == old(self).identity().h_flip(reversals),
            final(self).errors == old(self).errors,
            final(self).cigar == old(self).cigar,
    {
        self.id_a = companion_id(self.id_a, reversals);
        self.id_b = companion_id(self.id_b, reversals);
        self.mirror_horizontally();
    }

    /// Turns the overlap into the same overlap read from the other end.
    pub fn mirror_horizontally(&mut self)
        requires
            old(self).flippable(),
        ensures
            final(self).identity() == old(self).identity().mirror(),
            final(self).errors == old(self).errors,
            final(self).cigar == old(self).cigar,
    {
        let left = self.overhang_left_a;
        self.overhang_left_a = -self.overhang_right_b;
        self.overhang_right_b = -left;
    }
}

impl PartialEq for Solution {
    fn eq(&self, other: &Self) -> (r: bool) {
        self.id_a == other.id_a && self.id_b == other.id_b && self.orientation == other.orientation
            && self.overhang_left_a == other.overhang_left_a && self.overhang_right_b
            == other.overhang_right_b && self.overlap_a == other.overlap_a && self.overlap_b
            == other.overlap_b
    }
}

impl PartialEqSpecImpl for Solution {
    open spec fn obeys_eq_spec() -> bool {
        true
    }

    open spec fn eq_spec(&self, other: &Self) -> bool {
        self.identity() == other.identity()
    }
}

impl Eq for Solution {

}

/// A set of candidates. Nothing occurs in it twice.
#[derive(Debug)]
pub struct CandidateSet {
    items: Vec<Candidate>,
}

impl View for CandidateSet {
    type V = Set<Candidate>;

    closed spec fn view(&self) -> Set<Candidate> {
        self.items@.to_set()
    }
}

impl CandidateSet {
    /// Nothing occurs twice.
    pub closed spec fn wf(&self) -> bool {
        self.items@.no_duplicates()
    }

    pub fn new() -> (r: Self)
        ensures
            r.wf(),
            r@ == Set::<Candidate>::empty(),
    {
        let r = CandidateSet { items: Vec::new() };
        assert(r.items@.to_set() =~= Set::<Candidate>::empty());
        r
    }

    pub fn len(&self) -> (r: usize)
        requires
            self.wf(),
        ensures
            self@.finite(),
            r == self@.len(),
    {
        proof {
            self.items@.unique_seq_to_set();
            vstd::seq_lib::seq_to_set_is_finite(self.items@);
        }
        self.items.len()
    }

    pub fn is_empty(&self) -> (r: bool)
        ensures
            r == (self@ == Set::<Candidate>::empty()),
    {
        proof {
            if self.items@.len() == 0 {
                assert(self.items@.to_set() =~= Set::<Candidate>::empty());
            } else {
                assert(self.items@.to_set().contains(self.items@[0]));
            }
        }
        self.items.len() == 0
    }

    pub fn contains(&self, c: &Candidate) -> (r: bool)
        ensures
            r == self@.contains(*c),
    {
        let mut i: usize = 0;
        while i < self.items.len()
            invariant
                i <= self.items@.len(),
                forall|j: int| 0 <= j < i ==> self.items@[j] != *c,
            decreases self.items@.len() - i,
        {
            if self.items[i] == *c {
                return true;
            }
            i += 1;
        }
        false
    }

    /// Adds `c` unless it is there already; says whether it was added.
    pub fn insert(&mut self, c: Candidate) -> (r: bool)
        requires
            old(self).wf(),
        ensures
            final(self).wf(),
            final(self)@ == old(self)@.insert(c),
            r == !old(self)@.contains(c),
    {
        if self.contains(&c) {
            assert(self.items@.to_set() =~= self.items@.to_set().insert(c));
            false
        } else {
            let ghost before = self.items@;
            self.items.push(c);
            assert(self.items@.to_set() =~= before.to_set().insert(c)) by {
                assert forall|x: Candidate| self.items@.to_set().contains(x) implies before.to_set().insert(
                    c,
                ).contains(x) by {
                    let k = choose|k: int| 0 <= k < self.items@.len() && self.items@[k] == x;
                    if k < before.len() {
                        assert(before[k] == x);
                    }
                }
                assert forall|x: Candidate| before.to_set().insert(c).contains(x) implies self.items@.to_set().contains(
                    x,
                ) by {
                    if x == c {
                        assert(self.items@[before.len() as int] == x);
                    } else {
                        let k = choose|k: int| 0 <= k < before.len() && before[k] == x;
                        assert(self.items@[k] == x);
                    }
                }
            }
            true
        }
    }

    /// The members, each once, in the order in which they came.
    pub fn to_vec(&self) -> (r: Vec<Candidate>)
        requires
            self.wf(),
        ensures
            r@.no_duplicates(),
            r@.to_set() == self@,
    {
        self.items.clone()
    }
}

/// A set of solutions. No two of its entries have the same identity: of two
/// solutions that differ only in error count or edit summary, the set keeps
/// the one that came first.
#[derive(Debug)]
pub struct SolutionSet {
    items: Vec<Solution>,
}

/// The identities of the solutions in `entries`.
pub open spec fn identities(entries: Seq<Solution>) -> Set<Identity> {
    Set::new(|k: Identity| exists|i: int| 0 <= i < entries.len() && #[trigger] entries[i].identity() == k)
}

impl View for SolutionSet {
    type V = Set<Identity>;

    open spec fn view(&self) -> Set<Identity> {
        identities(self.entries())
    }
}

impl SolutionSet {
    /// The solutions held, in the order in which they came.
    pub closed spec fn entries(&self) -> Seq<Solution> {
        self.items@
    }

    /// No identity occurs twice.
    pub open spec fn wf(&self) -> bool {
        forall|i: int, j: int|
            0 <= i < j < self.entries().len() ==> #[trigger] self.entries()[i].identity()
                != #[trigger] self.entries()[j].identity()
    }

    pub fn new() -> (r: Self)
        ensures
            r.wf(),
            r.entries() == Seq::<Solution>::empty(),
            r@ == Set::<Identity>::empty(),
    {
        let r = SolutionSet { items: Vec::new() };
        assert(r@ =~= Set::<Identity>::empty());
        r
    }

    pub fn len(&self) -> (r: usize)
        ensures
            r == self.entries().len(),
    {
        self.items.len()
    }

    pub fn get(&self, i: usize) -> (r: &Solution)
        requires
            i < self.entries().len(),
        ensures
            *r == self.entries()[i as int],
    {
        &self.items[i]
    }

    /// Whether a solution with the identity of `s` is held.
    pub fn contains(&self, s: &Solution) -> (r: bool)
        ensures
            r == self@.contains(s.identity()),
    {
        let mut i: usize = 0;
        while i < self.items.len()
            invariant
                i <= self.items@.len(),
                forall|j: int| 0 <= j < i ==> self.items@[j].identity() != s.identity(),
            decreases self.items@.len() - i,
        {
            if self.items[i] == *s {
                return true;
            }
            i += 1;
        }
        false
    }

    /// Adds `s` unless a solution with its identity is held already; says
    /// whether it was added.
    pub fn insert(&mut self, s: Solution) -> (r: bool)
        requires
            old(self).wf(),
        ensures
            final(self).wf(),
            final(self)@ == old(self)@.insert(s.identity()),
            r == !old(self)@.contains(s.identity()),
            r ==> final(self).entries() == old(self).entries().push(s),
            !r ==> final(self).entries() == old(self).entries(),
    {
        if self.contains(&s) {
            assert(self@ =~= self@.insert(s.identity()));
            false
        } else {
            let ghost before = self.items@;
            self.items.push(s);
            assert(identities(self.items@) =~= identities(before).insert(s.identity())) by {
                assert forall|k: Identity| identities(self.items@).contains(k) implies identities(before).insert(
                    s.identity(),
                ).contains(k) by {
                    let i = choose|i: int| 0 <= i < self.items@.len() && self.items@[i].identity() == k;
                    if i < before.len() {
                        assert(before[i].identity() == k);
                    }
                }
                assert forall|k: Identity| identities(before).insert(s.identity()).contains(k) implies identities(
                    self.items@,
                ).contains(k) by {
                    if k == s.identity() {
                        assert(self.items@[before.len() as int].identity() == k);
                    } else {
                        let i = choose|i: int| 0 <= i < before.len() && before[i].identity() == k;
                        assert(self.items@[i].identity() == k);
                    }
                }
            }
            assert(self.wf()) by {
                assert forall|i: int, j: int| 0 <= i < j < self.items@.len() implies #[trigger] self.items@[i].identity()
                    != #[trigger] self.items@[j].identity() by {
                    if j < before.len() {
                        assert(before[i].identity() != before[j].identity());
                    } else {
                        assert(before[i].identity() != s.identity());
                    }
                }
            }
            true
        }
    }

    /// The solutions held, in the order in which they came.
    pub fn into_vec(self) -> (r: Vec<Solution>)
        ensures
            r@ == self.entries(),
    {
        self.items
    }
}

/// A solution that comes a second time, be it with another error count or
/// another edit summary, leaves the set as it is.
pub proof fn lemma_second_insert_changes_nothing(held: Set<Identity>, first: Solution, second: Solution)
    requires
        first.identity() == second.identity(),
    ensures
        held.insert(first.identity()).insert(second.identity()) == held.insert(first.identity()),
{
    assert(held.insert(first.identity()).insert(second.identity()) =~= held.insert(first.identity()));
}

/// The order in which two solutions come does not change what the set
/// holds.
pub proof fn lemma_insert_order_is_free(held: Set<Identity>, one: Solution, other: Solution)
    ensures
        held.insert(one.identity()).insert(other.identity()) == held.insert(other.identity()).insert(
            one.identity(),
        ),
{
    assert(held.insert(one.identity()).insert(other.identity()) =~= held.insert(other.identity()).insert(
        one.identity(),
    ));
}

/// Of the parts of the two sequences before an overlap, one is empty.
pub proof fn lemma_one_side_starts_the_overlap(c: Candidate)
    ensures
        c.spec_a1() == 0 || c.spec_b1() == 0,
        c.spec_a1() * c.spec_b1() == 0,
{
    assert(c.spec_a1() * c.spec_b1() == 0) by (nonlinear_arith)
        requires
            c.spec_a1() == 0 || c.spec_b1() == 0,
    ;
}

} // verus!
