//! The search for candidates: a backward walk through the index that
//! branches over substitutions, insertions and deletions, and prunes every
//! branch that has spent more errors than the filter policy permits.

use crate::filter::{cuts_query, total_length, FilterPolicy};
use crate::index::RankIndex;
use crate::structs::run_config::{Config, Maps, BASE_A, BASE_C, BASE_G, BASE_N, BASE_T, SENTINEL};
use bio::data_structures::fmindex::Interval;
use crate::structs::solutions::{Candidate, CandidateSet};
use crate::useful::companion_id;
use vstd::prelude::*;

verus! {

/// The symbol of a base that could not be read. It never counts as a match.
pub const READ_ERR: u8 = BASE_N;

/// Why the search for one query was given up.
#[derive(Debug, Clone, Copy, PartialEq, Eq, Structural)]
pub enum SearchError {
    /// The index does not answer for this symbol.
    UnservedSymbol(u8),
    /// The policy gave blocks that do not cut the query.
    BadBlocks,
    /// The index gave a count that leads outside its ranks.
    RankOutOfRange,
    /// The hit at this text position belongs to no sequence.
    NoSequenceAt(usize),
}

/// The lower-case letter of a base; `?` for any other byte.
pub fn smaller(a: u8) -> (r: char)
    ensures
        r == if a == BASE_A {
            'a'
        } else if a == BASE_C {
            'c'
        } else if a == BASE_N {
            'n'
        } else if a == BASE_G {
            'g'
        } else if a == BASE_T {
            't'
        } else {
            '?'
        },
{
    if a == BASE_A {
        'a'
    } else if a == BASE_C {
        'c'
    } else if a == BASE_N {
        'n'
    } else if a == BASE_G {
        'g'
    } else if a == BASE_T {
        't'
    } else {
        '?'
    }
}

/// The step that led to the present state of a walk.
#[derive(Debug, Clone, Copy, PartialEq, Eq, Structural)]
pub enum LastOperation {
    Initial,
    Substitution,
    Insertion,
    Deletion,
}

impl LastOperation {
    pub open spec fn spec_allows_deletion(self) -> bool {
        self == LastOperation::Deletion || self == LastOperation::Substitution
    }

    pub open spec fn spec_allows_insertion(self) -> bool {
        self == LastOperation::Insertion || self == LastOperation::Substitution
    }

    pub open spec fn spec_allows_candidates(self) -> bool {
        self == LastOperation::Initial || self == LastOperation::Substitution
    }

    /// A deletion may follow a substitution or a deletion.
    #[verifier::when_used_as_spec(spec_allows_deletion)]
    pub fn allows_deletion(self) -> (r: bool)
        ensures
            r == self.spec_allows_deletion(),
    {
        self == LastOperation::Deletion || self == LastOperation::Substitution
    }

    /// An insertion may follow a substitution or an insertion.
    #[verifier::when_used_as_spec(spec_allows_insertion)]
    pub fn allows_insertion(self) -> (r: bool)
        ensures
            r == self.spec_allows_insertion(),
    {
        self == LastOperation::Insertion || self == LastOperation::Substitution
    }

    /// A walk may report only at its start or behind a substitution.
    #[verifier::when_used_as_spec(spec_allows_candidates)]
    pub fn allows_candidates(self) -> (r: bool)
        ensures
            r == self.spec_allows_candidates(),
    {
        self == LastOperation::Initial || self == LastOperation::Substitution
    }
}

/// For each position of a query the number of the block that holds it,
/// where `lengths` are the block lengths from the block at the query's end
/// to the one at its start. A length below zero counts as zero.
pub open spec fn block_id_lookup(lengths: Seq<i32>) -> Seq<i32>
    decreases lengths.len(),
{
    if lengths.len() == 0 {
        Seq::<i32>::empty()
    } else {
        let copies: nat = if lengths.last() > 0 {
            lengths.last() as nat
        } else {
            0
        };
        Seq::new(copies, |j: int| (lengths.len() - 1) as i32) + block_id_lookup(lengths.drop_last())
    }
}

pub fn get_block_id_lookup(block_lengths: &Vec<i32>) -> (lookup: Vec<i32>)
    requires
        block_lengths@.len() <= i32::MAX,
    ensures
        lookup@ == block_id_lookup(block_lengths@),
{
    let mut lookup: Vec<i32> = Vec::new();
    let mut k: usize = block_lengths.len();
    assert(block_lengths@.take(k as int) =~= block_lengths@);
    while k > 0
        invariant
            k <= block_lengths@.len() <= i32::MAX,
            lookup@ + block_id_lookup(block_lengths@.take(k as int)) == block_id_lookup(block_lengths@),
        decreases k,
    {
        let ghost rest = block_lengths@.take(k as int);
        let ghost done = lookup@;
        let id: i32 = (k - 1) as i32;
        let block_length: i32 = block_lengths[k - 1];
        let mut j: i32 = 0;
        while j < block_length
            invariant
                0 <= j,
                j <= block_length || j == 0,
                lookup@ == done + Seq::new(j as nat, |i: int| id),
            decreases block_length - j,
        {
            lookup.push(id);
            j += 1;
            assert(lookup@ =~= done + Seq::new(j as nat, |i: int| id));
        }
        proof {
            assert(rest.drop_last() =~= block_lengths@.take(k - 1));
            assert(rest.last() == block_length);
            let copies: nat = if block_length > 0 {
                block_length as nat
            } else {
                0
            };
            assert(j == copies);
            assert(Seq::new(copies, |i: int| id) =~= Seq::new(copies, |i: int| (rest.len() - 1) as i32));
            assert(lookup@ + block_id_lookup(rest.drop_last()) =~= done + block_id_lookup(rest));
        }
        k -= 1;
    }
    assert(block_lengths@.take(0) =~= Seq::<i32>::empty());
    assert(lookup@ + Seq::<i32>::empty() =~= lookup@);
    lookup
}

/// What stays the same throughout the search of one filter of one query.
#[derive(Debug)]
pub struct SearchConstants<'a> {
    pub config: &'a Config,
    pub maps: &'a Maps,
    /// For each position of the query the number of the block that holds it.
    pub block_id_lookup: &'a Vec<i32>,
    pub pattern: &'a [u8],
    pub id_a: usize,
    /// How many symbols at the end of the query this filter leaves unread.
    pub blind_a_chars: usize,
    /// The errors that the whole query may hold at its error rate.
    pub hard_error_cap: i32,
    /// The longest stretch of another sequence that the query can match.
    pub max_b_len: usize,
    /// The number of the block that this filter starts with.
    pub first_block_id: i32,
    pub patt_blocks: i32,
}

/// The constants of a filter as plain values: what the contracts of the
/// search speak of.
pub struct Filter {
    pub config: Config,
    pub maps: Maps,
    pub block_id_lookup: Seq<i32>,
    pub pattern: Seq<u8>,
    pub id_a: usize,
    pub blind_a_chars: usize,
    pub hard_error_cap: i32,
    pub max_b_len: usize,
    pub first_block_id: i32,
    pub patt_blocks: i32,
}

impl<'a> View for SearchConstants<'a> {
    type V = Filter;

    open spec fn view(&self) -> Filter {
        Filter {
            config: *self.config,
            maps: *self.maps,
            block_id_lookup: self.block_id_lookup@,
            pattern: self.pattern@,
            id_a: self.id_a,
            blind_a_chars: self.blind_a_chars,
            hard_error_cap: self.hard_error_cap,
            max_b_len: self.max_b_len,
            first_block_id: self.first_block_id,
            patt_blocks: self.patt_blocks,
        }
    }
}

impl Filter {
    /// The constants fit each other, and every length fits the integers
    /// that hold it.
    pub open spec fn wf(&self) -> bool {
        &&& self.config.err_rate.wf()
        &&& self.maps.wf()
        &&& self.id_a < self.maps.num_ids
        &&& self.maps.text@.len() <= i32::MAX
        &&& self.pattern.len() < 0x4000_0000
        &&& self.blind_a_chars <= self.pattern.len()
        &&& 0 <= self.hard_error_cap <= self.pattern.len()
        &&& 0 <= self.first_block_id <= self.patt_blocks
        &&& forall|i: int|
            0 <= i < self.block_id_lookup.len() ==> 0 <= #[trigger] self.block_id_lookup[i] <= self.patt_blocks
    }

    /// The least and the greatest length that the matched side of an
    /// overlap can have, of which the query side is `a2` long and
    /// `b_match_len` symbols of the matched sequence were walked, in a
    /// sequence of `b_len` symbols.
    pub open spec fn overlap_bounds(&self, a2: nat, b_match_len: nat, b_len: nat) -> (nat, nat) {
        if !self.config.edit_distance {
            (a2, a2)
        } else {
            let rate = self.config.err_rate;
            (
                if rate.shrunk(a2) >= b_match_len {
                    rate.shrunk(a2)
                } else {
                    b_match_len
                },
                if rate.stretched(a2) <= b_len {
                    rate.stretched(a2)
                } else {
                    b_len
                },
            )
        }
    }

    /// Whether a hit in sequence `id_b` is passed over: the query itself,
    /// its reverse complement, and, where indels are searched for, every
    /// sequence with a smaller id than the query, whose own search finds
    /// the same overlap.
    pub open spec fn passes_over(&self, id_b: int) -> bool {
        ||| id_b == self.id_a
        ||| id_b == companion_id(self.id_a, self.config.reversals)
        ||| self.config.edit_distance && self.id_a > id_b
    }

    /// The candidates that a hit in sequence `id_b` stands for, where the
    /// hit starts `b1` symbols into that sequence and the walk has read
    /// `a_match_len` symbols of the query and `b_match_len` of the text.
    pub open spec fn candidates_of(
        &self,
        id_b: int,
        b1: int,
        a_match_len: nat,
        b_match_len: nat,
        inclusion: bool,
    ) -> Set<Candidate> {
        if self.passes_over(id_b) {
            Set::empty()
        } else {
            let a_len = self.pattern.len();
            let b_len = self.maps.string(id_b).len();
            let a2: nat = a_match_len + self.blind_a_chars as nat;
            let a1 = if inclusion {
                0
            } else {
                a_len - a2
            };
            let bounds = self.overlap_bounds(a2, b_match_len, b_len);
            Set::new(
                |c: Candidate|
                    {
                        &&& c.id_b == id_b
                        &&& c.overlap_a == a2
                        &&& bounds.0 <= c.overlap_b <= bounds.1
                        &&& b1 + c.overlap_b <= b_len
                        &&& c.overhang_left_a == a1 - b1
                    },
            )
        }
    }

    /// What the hit at text position `position` gives: its candidates, or
    /// the error that no sequence owns the hit. A hit that ends an overlap
    /// stands on the `$` before its sequence; a hit of an inclusion stands
    /// inside its sequence.
    pub open spec fn hit_outcome(
        &self,
        position: usize,
        a_match_len: nat,
        b_match_len: nat,
        inclusion: bool,
    ) -> Result<Set<Candidate>, SearchError> {
        if inclusion {
            if position == 0 {
                Err(SearchError::NoSequenceAt(position))
            } else {
                let id_b = self.maps.holder(position as int);
                Ok(self.candidates_of(id_b, position - self.maps.start(id_b), a_match_len, b_match_len, true))
            }
        } else {
            if self.maps.starts_at(position + 1) {
                Ok(self.candidates_of(self.maps.id_starting_at(position + 1), 0, a_match_len, b_match_len, false))
            } else {
                Err(SearchError::NoSequenceAt(position))
            }
        }
    }

    /// What the hits `positions[k..]` give when their candidates join
    /// `acc`: the set that results, or the first error met.
    pub open spec fn hits_outcome(
        &self,
        acc: Set<Candidate>,
        positions: Seq<usize>,
        k: int,
        a_match_len: nat,
        b_match_len: nat,
        inclusion: bool,
    ) -> Result<Set<Candidate>, SearchError>
        decreases positions.len() - k,
    {
        if k < 0 || k >= positions.len() {
            Ok(acc)
        } else {
            match self.hit_outcome(positions[k], a_match_len, b_match_len, inclusion) {
                Err(e) => Err(e),
                Ok(found) => self.hits_outcome(
                    acc.union(found),
                    positions,
                    k + 1,
                    a_match_len,
                    b_match_len,
                    inclusion,
                ),
            }
        }
    }

    /// What holds of a candidate that a hit gives after `a_match_len`
    /// symbols of the query were read: the overlap is as long, on the side
    /// of the query, as what was read and what the filter leaves unread;
    /// where no indels are searched for it is as long on the other side;
    /// a hit that ends an overlap has nothing of the matched sequence
    /// before it and the rest of the query for its overhang; an inclusion
    /// has nothing of the query before it.
    pub open spec fn adds(&self, c: Candidate, a_match_len: nat, inclusion: bool) -> bool {
        &&& c.overlap_a == a_match_len + self.blind_a_chars
        &&& !self.config.edit_distance ==> c.overlap_b == c.overlap_a
        &&& !inclusion ==> c.spec_b1() == 0 && c.overhang_left_a == self.pattern.len() - c.overlap_a
        &&& inclusion ==> c.spec_a1() == 0 && c.overhang_left_a <= 0
    }

    /// What holds of every candidate that the search of this filter
    /// reports.
    pub open spec fn reportable(&self, c: Candidate) -> bool {
        reportable(&self.config, &self.maps, self.id_a, self.pattern.len(), c)
    }
}

/// What holds of every candidate that the search for query `id_a`, of
/// `a_len` symbols, reports: it names another sequence than the query and
/// its reverse complement, a greater id than the query's where indels are
/// searched for, equal overlap lengths where they are not, and it leaves
/// nothing of the query behind the overlap.
pub open spec fn reportable(config: &Config, maps: &Maps, id_a: usize, a_len: nat, c: Candidate) -> bool {
    &&& c.id_b < maps.num_ids
    &&& c.id_b != id_a
    &&& c.id_b != companion_id(id_a, config.reversals)
    &&& config.edit_distance ==> id_a < c.id_b
    &&& !config.edit_distance ==> c.overlap_a == c.overlap_b
    &&& c.fits(a_len, maps.string(c.id_b as int).len())
}

/// Adds the candidates that a hit in sequence `id_b` stands for.
fn add_candidates_of(
    cand_set: &mut CandidateSet,
    cns: &SearchConstants,
    id_b: usize,
    b1: usize,
    a_match_len: usize,
    b_match_len: usize,
    inclusion: bool,
)
    requires
        old(cand_set).wf(),
        cns@.wf(),
        id_b < cns.maps.num_ids,
        a_match_len + cns.blind_a_chars <= cns.pattern@.len(),
        inclusion ==> a_match_len + cns.blind_a_chars == cns.pattern@.len(),
        !inclusion ==> b1 == 0,
    ensures
        final(cand_set).wf(),
        final(cand_set)@ == old(cand_set)@.union(
            cns@.candidates_of(id_b as int, b1 as int, a_match_len as nat, b_match_len as nat, inclusion),
        ),
        forall|c: Candidate|
            cns@.candidates_of(id_b as int, b1 as int, a_match_len as nat, b_match_len as nat, inclusion).contains(c)
                ==> cns@.reportable(c) && cns@.adds(c, a_match_len as nat, inclusion),
{
    let ghost before = cand_set@;
    let ghost target = cns@.candidates_of(id_b as int, b1 as int, a_match_len as nat, b_match_len as nat, inclusion);
    if id_b == cns.id_a || id_b == companion_id(cns.id_a, cns.config.reversals) || (cns.config.edit_distance
        && cns.id_a > id_b) {
        assert(cand_set@ =~= before.union(target));
        return ;
    }
    let a_len = cns.pattern.len();
    let b_len = cns.maps.get_length(id_b);
    let a2 = a_match_len + cns.blind_a_chars;
    let a1 = if inclusion {
        0
    } else {
        a_len - a2
    };
    // The parts before the overlap are never both there: the walk of an
    // overlap starts at the first symbol of the matched sequence, and an
    // inclusion holds the whole query.
    assert(a1 == 0 || b1 == 0);
    assert(a_len - a1 - a2 == 0);
    if b1 > b_len {
        assert(cand_set@ =~= before.union(target));
        return ;
    }
    let (min_b2, max_b2) = if !cns.config.edit_distance {
        (a2, a2)
    } else {
        let shrunk = cns.config.err_rate.min_counterpart(a2);
        (
            if shrunk >= b_match_len {
                shrunk
            } else {
                b_match_len
            },
            cns.config.err_rate.max_counterpart(a2, b_len),
        )
    };
    assert((min_b2 as nat, max_b2 as nat) == cns@.overlap_bounds(a2 as nat, b_match_len as nat, b_len as nat));
    let room = b_len - b1;
    let last = if max_b2 <= room {
        max_b2
    } else {
        room
    };
    let overhang_left_a: i32 = a1 as i32 - b1 as i32;
    let mut b2 = min_b2;
    assert(cand_set@ =~= before.union(Set::new(|c: Candidate| target.contains(c) && c.overlap_b < b2)));
    while b2 <= last
        invariant
            cand_set.wf(),
            last <= b_len <= i32::MAX,
            last <= max_b2,
            last <= room,
            room == b_len - b1,
            last == max_b2 || last == room,
            min_b2 <= b2,
            target == Set::new(
                |c: Candidate|
                    {
                        &&& c.id_b == id_b
                        &&& c.overlap_a == a2
                        &&& min_b2 <= c.overlap_b <= max_b2
                        &&& b1 + c.overlap_b <= b_len
                        &&& c.overhang_left_a == overhang_left_a
                    },
            ),
            cand_set@ == before.union(Set::new(|c: Candidate| target.contains(c) && c.overlap_b < b2)),
        decreases last + 1 - b2,
    {
        let ghost so_far = cand_set@;
        let c = Candidate { id_b, overlap_a: a2, overlap_b: b2, overhang_left_a };
        cand_set.insert(c);
        b2 += 1;
        assert(cand_set@ =~= before.union(Set::new(|c: Candidate| target.contains(c) && c.overlap_b < b2))) by {
            assert(target.contains(c));
            assert forall|x: Candidate| target.contains(x) && x.overlap_b < b2 implies so_far.insert(
                c,
            ).contains(x) by {
                if x.overlap_b == c.overlap_b {
                    assert(x == c);
                }
            }
        }
    }
    assert(cand_set@ =~= before.union(target));
}

/// Adds the candidates that the hit at text position `position` stands
/// for, unless the hit belongs to no sequence.
fn add_candidates_at(
    position: usize,
    cand_set: &mut CandidateSet,
    cns: &SearchConstants,
    a_match_len: usize,
    b_match_len: usize,
    inclusion: bool,
) -> (r: Result<(), SearchError>)
    requires
        old(cand_set).wf(),
        cns@.wf(),
        a_match_len + cns.blind_a_chars <= cns.pattern@.len(),
        inclusion ==> a_match_len + cns.blind_a_chars == cns.pattern@.len(),
    ensures
        final(cand_set).wf(),
        old(cand_set)@.subset_of(final(cand_set)@),
        match cns@.hit_outcome(position, a_match_len as nat, b_match_len as nat, inclusion) {
            Ok(found) => r is Ok && final(cand_set)@ == old(cand_set)@.union(found),
            Err(e) => r == Err::<(), SearchError>(e) && final(cand_set)@ == old(cand_set)@,
        },
        forall|c: Candidate| final(cand_set)@.contains(c) ==> old(cand_set)@.contains(c) || cns@.reportable(c),
        forall|c: Candidate|
            final(cand_set)@.contains(c) ==> old(cand_set)@.contains(c) || cns@.adds(
                c,
                a_match_len as nat,
                inclusion,
            ),
{
    if inclusion {
        if position == 0 {
            return Err(SearchError::NoSequenceAt(position));
        }
        let (id_b, index_b) = cns.maps.find_occurrence_containing(position);
        proof {
            cns.maps.lemma_offset_decides_holder(id_b as int, position as int);
        }
        add_candidates_of(cand_set, cns, id_b, position - index_b, a_match_len, b_match_len, true);
        Ok(())
    } else {
        if position >= cns.maps.text.len() {
            proof {
                if cns.maps.starts_at(position + 1) {
                    let id = cns.maps.id_starting_at(position + 1);
                    assert(crate::structs::run_config::bidir_pairs(cns.maps.id2index_bdmap)[id].1
                        < cns.maps.text@.len());
                }
            }
            return Err(SearchError::NoSequenceAt(position));
        }
        match cns.maps.id_for(position + 1) {
            None => Err(SearchError::NoSequenceAt(position)),
            Some(id_b) => {
                proof {
                    cns.maps.lemma_start_decides_id(id_b as int, position + 1);
                }
                add_candidates_of(cand_set, cns, id_b, 0, a_match_len, b_match_len, false);
                Ok(())
            },
        }
    }
}

/// Turns the hits at `positions` into candidates and adds them to
/// `cand_set`. The walk that found the hits has read `a_match_len` symbols
/// of the query and `b_match_len` symbols of the text; `inclusion` says
/// whether the hits hold the whole query or end an overlap.
pub fn add_candidates_from_positions(
    positions: Vec<usize>,
    cand_set: &mut CandidateSet,
    cns: &SearchConstants,
    a_match_len: usize,
    b_match_len: usize,
    inclusion: bool,
) -> (r: Result<(), SearchError>)
    requires
        old(cand_set).wf(),
        cns@.wf(),
        a_match_len + cns.blind_a_chars <= cns.pattern@.len(),
        inclusion ==> a_match_len + cns.blind_a_chars == cns.pattern@.len(),
    ensures
        final(cand_set).wf(),
        old(cand_set)@.subset_of(final(cand_set)@),
        match cns@.hits_outcome(old(cand_set)@, positions@, 0, a_match_len as nat, b_match_len as nat, inclusion) {
            Ok(found) => r is Ok && final(cand_set)@ == found,
            Err(e) => r == Err::<(), SearchError>(e),
        },
        forall|c: Candidate| final(cand_set)@.contains(c) ==> old(cand_set)@.contains(c) || cns@.reportable(c),
        forall|c: Candidate|
            final(cand_set)@.contains(c) ==> old(cand_set)@.contains(c) || cns@.adds(
                c,
                a_match_len as nat,
                inclusion,
            ),
{
    let ghost before = cand_set@;
    let mut k: usize = 0;
    while k < positions.len()
        invariant
            cand_set.wf(),
            cns@.wf(),
            a_match_len + cns.blind_a_chars <= cns.pattern@.len(),
            inclusion ==> a_match_len + cns.blind_a_chars == cns.pattern@.len(),
            k <= positions@.len(),
            before == old(cand_set)@,
            cns@.hits_outcome(cand_set@, positions@, k as int, a_match_len as nat, b_match_len as nat, inclusion)
                == cns@.hits_outcome(before, positions@, 0, a_match_len as nat, b_match_len as nat, inclusion),
            before.subset_of(cand_set@),
            forall|c: Candidate| cand_set@.contains(c) ==> before.contains(c) || cns@.reportable(c),
            forall|c: Candidate|
                cand_set@.contains(c) ==> before.contains(c) || cns@.adds(c, a_match_len as nat, inclusion),
        decreases positions@.len() - k,
    {
        match add_candidates_at(positions[k], cand_set, cns, a_match_len, b_match_len, inclusion) {
            Err(e) => {
                return Err(e);
            },
            Ok(()) => {},
        }
        k += 1;
    }
    Ok(())
}

/// Where a walk stands: the errors spent, the next position of the query,
/// the step that led here, the symbols read of the query and of the text,
/// and the ranks, from `lower` to `upper` and with both, of the text
/// positions that match what was read.
pub struct Walk {
    pub errors: i32,
    pub p_i: i32,
    pub last_operation: LastOperation,
    pub a_match_len: usize,
    pub b_match_len: usize,
    pub lower: usize,
    pub upper: usize,
}

impl Walk {
    /// The walk has read the query from the filter's start down to `p_i`,
    /// within the errors that the query may hold.
    pub open spec fn ok(&self, cns: Filter) -> bool {
        &&& -1 <= self.p_i
        &&& self.a_match_len + self.p_i + 1 + cns.blind_a_chars == cns.pattern.len()
        &&& 0 <= self.errors <= cns.hard_error_cap
        &&& self.b_match_len <= self.a_match_len + self.errors
    }

    /// What bounds the steps that a walk can still take.
    pub open spec fn steps_left(&self, cns: Filter) -> int {
        (self.p_i + 1) + (cns.hard_error_cap - self.errors)
    }

    /// The walk after reading `a` for the next symbol of the query.
    pub open spec fn substituted(&self, cns: Filter, a: u8, lower: int, upper: int) -> Walk {
        Walk {
            errors: if cns.pattern[self.p_i as int] == a && a != READ_ERR {
                self.errors
            } else {
                (self.errors + 1) as i32
            },
            p_i: (self.p_i - 1) as i32,
            last_operation: LastOperation::Substitution,
            a_match_len: (self.a_match_len + 1) as usize,
            b_match_len: (self.b_match_len + 1) as usize,
            lower: lower as usize,
            upper: upper as usize,
        }
    }

    /// The walk after reading a symbol that the query does not have.
    pub open spec fn inserted(&self, lower: int, upper: int) -> Walk {
        Walk {
            errors: (self.errors + 1) as i32,
            p_i: self.p_i,
            last_operation: LastOperation::Insertion,
            a_match_len: self.a_match_len,
            b_match_len: (self.b_match_len + 1) as usize,
            lower: lower as usize,
            upper: upper as usize,
        }
    }

    /// The walk after passing over the next symbol of the query.
    pub open spec fn deleted(&self) -> Walk {
        Walk {
            errors: (self.errors + 1) as i32,
            p_i: (self.p_i - 1) as i32,
            last_operation: LastOperation::Deletion,
            a_match_len: (self.a_match_len + 1) as usize,
            b_match_len: self.b_match_len,
            lower: self.lower,
            upper: self.upper,
        }
    }
}

/// How many blocks of the filter lie behind a walk that stands at `p_i`.
pub open spec fn completed_blocks(cns: Filter, p_i: int) -> int {
    if 0 <= p_i < cns.block_id_lookup.len() {
        cns.block_id_lookup[p_i] - cns.first_block_id
    } else {
        cns.patt_blocks - cns.first_block_id
    }
}

/// The errors that a walk standing at `p_i` may have spent: what the
/// policy permits, and never more than the query may hold.
pub open spec fn permitted<P: FilterPolicy>(policy: &P, cns: Filter, p_i: int) -> int {
    let by_policy = policy.permitted_errors(completed_blocks(cns, p_i), cns.patt_blocks as int);
    if cns.hard_error_cap <= by_policy {
        cns.hard_error_cap as int
    } else {
        by_policy
    }
}

/// Whether a walk may report hits where it stands.
pub open spec fn may_report<P: FilterPolicy>(policy: &P, cns: Filter, w: Walk) -> bool {
    let longer = if w.a_match_len >= w.b_match_len {
        w.a_match_len
    } else {
        w.b_match_len
    };
    policy.eligible(longer + 1, completed_blocks(cns, w.p_i as int), cns.config.thresh as int, w.errors as int)
        && w.last_operation.allows_candidates()
}

/// The ranks of the text positions that match `a` followed by what the
/// ranks from `lower` to `upper` match: the first of them, and the one
/// behind the last.
pub open spec fn extended<I: RankIndex + ?Sized>(index: &I, lower: usize, upper: usize, a: u8) -> (int, int) {
    (
        index.less_of(a) as int + if lower > 0 {
            index.occ_of(lower - 1, a) as int
        } else {
            0
        },
        index.less_of(a) as int + index.occ_of(upper as int, a) as int,
    )
}

/// The text positions behind the ranks from `lower` up to, and without,
/// `upper`.
pub open spec fn positions_between<I: RankIndex + ?Sized>(index: &I, lower: int, upper: int) -> Seq<usize> {
    Seq::new((upper - lower) as nat, |i: int| index.position_of(lower + i))
}

/// What a walk and all that branches from it give when their candidates
/// join `acc`: the set that results, or the first error met.
///
/// A walk whose ranks are empty gives nothing. Where it may report, it
/// reports the sequences that start with what it has read; at the end of
/// the query it reports, where inclusions are asked for, every place that
/// holds what it has read. Before the end of the query it branches, for
/// each symbol of the alphabet in turn, and then passes over the next
/// symbol of the query where a deletion is allowed.
pub open spec fn walk_outcome<I: RankIndex + ?Sized, P: FilterPolicy>(
    index: &I,
    policy: &P,
    cns: Filter,
    acc: Set<Candidate>,
    w: Walk,
) -> Result<Set<Candidate>, SearchError>
    decreases w.steps_left(cns), cns.config.spec_alphabet().len() + 1,
{
    if w.lower > w.upper {
        Ok(acc)
    } else if w.upper >= index.rows() {
        Err(SearchError::RankOutOfRange)
    } else {
        let report = may_report(policy, cns, w);
        let hits = extended(index, w.lower, w.upper, SENTINEL);
        let after_overlaps = if !report {
            Ok(acc)
        } else if hits.0 > usize::MAX || hits.1 > usize::MAX {
            Err(SearchError::RankOutOfRange)
        } else if hits.0 >= hits.1 {
            Ok(acc)
        } else if hits.1 > index.rows() {
            Err(SearchError::RankOutOfRange)
        } else {
            cns.hits_outcome(
                acc,
                positions_between(index, hits.0, hits.1),
                0,
                w.a_match_len as nat,
                w.b_match_len as nat,
                false,
            )
        };
        match after_overlaps {
            Err(e) => Err(e),
            Ok(acc1) => if w.p_i <= -1 {
                if cns.config.inclusions && report {
                    cns.hits_outcome(
                        acc1,
                        positions_between(index, w.lower as int, w.upper + 1),
                        0,
                        w.a_match_len as nat,
                        w.b_match_len as nat,
                        true,
                    )
                } else {
                    Ok(acc1)
                }
            } else {
                match branches_outcome(index, policy, cns, acc1, w, 0) {
                    Err(e) => Err(e),
                    Ok(acc2) => if cns.config.edit_distance && w.errors < permitted(policy, cns, w.p_i as int)
                        && w.last_operation.allows_deletion() {
                        walk_outcome(index, policy, cns, acc2, w.deleted())
                    } else {
                        Ok(acc2)
                    },
                }
            },
        }
    }
}

/// What the branches of a walk give for the symbols of the alphabet from
/// the `k`-th on: for each symbol the walk that reads it for the next
/// symbol of the query, if that stays within the permitted errors, and then
/// the walk that reads it as a symbol that the query lacks, if an insertion
/// is allowed and the symbol is not the query's next.
pub open spec fn branches_outcome<I: RankIndex + ?Sized, P: FilterPolicy>(
    index: &I,
    policy: &P,
    cns: Filter,
    acc: Set<Candidate>,
    w: Walk,
    k: int,
) -> Result<Set<Candidate>, SearchError>
    decreases w.steps_left(cns), cns.config.spec_alphabet().len() - k,
{
    let alphabet = cns.config.spec_alphabet();
    if k < 0 || k >= alphabet.len() || w.p_i < 0 {
        Ok(acc)
    } else {
        let a = alphabet[k];
        let next = extended(index, w.lower, w.upper, a);
        let allowed = permitted(policy, cns, w.p_i as int);
        let substituted = w.substituted(cns, a, next.0, next.1 - 1);
        if next.0 > usize::MAX || next.1 > usize::MAX {
            Err(SearchError::RankOutOfRange)
        } else {
            let after_substitution = if next.1 > 0 && substituted.errors <= allowed && w.errors < i32::MAX {
                walk_outcome(index, policy, cns, acc, substituted)
            } else {
                Ok(acc)
            };
            match after_substitution {
                Err(e) => Err(e),
                Ok(acc1) => {
                    let after_insertion = if next.1 > 0 && w.errors < allowed && cns.config.edit_distance
                        && w.last_operation.allows_insertion() && cns.pattern[w.p_i as int] != a {
                        walk_outcome(index, policy, cns, acc1, w.inserted(next.0, next.1 - 1))
                    } else {
                        Ok(acc1)
                    };
                    match after_insertion {
                        Err(e) => Err(e),
                        Ok(acc2) => branches_outcome(index, policy, cns, acc2, w, k + 1),
                    }
                },
            }
        }
    }
}

/// Whether the index answers for `$` and for every symbol of the alphabet.
pub open spec fn serves_search<I: RankIndex + ?Sized>(index: &I, config: &Config) -> bool {
    &&& index.serves(SENTINEL)
    &&& forall|k: int|
        0 <= k < config.spec_alphabet().len() ==> index.serves(#[trigger] config.spec_alphabet()[k])
}

/// The ranks that match `a` followed by what the ranks from `lower` to
/// `upper` match, unless a count leads beyond what a rank can be.
fn extend_interval<I: RankIndex + ?Sized>(index: &I, lower: usize, upper: usize, a: u8) -> (r: Option<
    (usize, usize),
>)
    requires
        lower <= upper < index.rows(),
        index.serves(a),
    ensures
        match r {
            Some(next) => (next.0 as int, next.1 as int) == extended(index, lower, upper, a),
            None => extended(index, lower, upper, a).0 > usize::MAX || extended(index, lower, upper, a).1
                > usize::MAX,
        },
{
    let less = index.less(a);
    let before = if lower > 0 {
        index.occ(lower - 1, a)
    } else {
        0
    };
    let within = index.occ(upper, a);
    match (less.checked_add(before), less.checked_add(within)) {
        (Some(lo), Some(hi)) => Some((lo, hi)),
        _ => None,
    }
}

/// Walks on from one state of the search of a filter and adds every
/// candidate found to `cand_set`.
pub fn recurse<I: RankIndex + ?Sized, P: FilterPolicy>(
    index: &I,
    policy: &P,
    cand_set: &mut CandidateSet,
    cns: &SearchConstants,
    errors: i32,
    p_i: i32,
    last_operation: LastOperation,
    a_match_len: usize,
    b_match_len: usize,
    match_interval: &Interval,
) -> (r: Result<(), SearchError>)
    requires
        old(cand_set).wf(),
        cns@.wf(),
        serves_search(index, cns.config),
        (Walk {
            errors,
            p_i,
            last_operation,
            a_match_len,
            b_match_len,
            lower: match_interval.lower,
            upper: match_interval.upper,
        }).ok(cns@),
    ensures
        final(cand_set).wf(),
        old(cand_set)@.subset_of(final(cand_set)@),
        match walk_outcome(
            index,
            policy,
            cns@,
            old(cand_set)@,
            Walk {
                errors,
                p_i,
                last_operation,
                a_match_len,
                b_match_len,
                lower: match_interval.lower,
                upper: match_interval.upper,
            },
        ) {
            Ok(found) => r is Ok && final(cand_set)@ == found,
            Err(e) => r == Err::<(), SearchError>(e),
        },
        forall|c: Candidate| final(cand_set)@.contains(c) ==> old(cand_set)@.contains(c) || cns@.reportable(c),
    decreases (p_i + 1) + (cns.hard_error_cap - errors),
{
    let ghost w = Walk {
        errors,
        p_i,
        last_operation,
        a_match_len,
        b_match_len,
        lower: match_interval.lower,
        upper: match_interval.upper,
    };
    let ghost start = cand_set@;
    let lower = match_interval.lower;
    let upper = match_interval.upper;
    if lower > upper {
        return Ok(());
    }
    if upper >= index.len() {
        return Err(SearchError::RankOutOfRange);
    }
    let completed_blocks: i32 = if p_i >= 0 && (p_i as usize) < cns.block_id_lookup.len() {
        cns.block_id_lookup[p_i as usize] - cns.first_block_id
    } else {
        cns.patt_blocks - cns.first_block_id
    };
    let by_policy = policy.filter_func(completed_blocks, cns.patt_blocks);
    let permitted_errors: i32 = if cns.hard_error_cap <= by_policy {
        cns.hard_error_cap
    } else {
        by_policy
    };
    assert(permitted_errors == permitted(policy, cns@, p_i as int));
    let longer = if a_match_len >= b_match_len {
        a_match_len
    } else {
        b_match_len
    };
    let generous_match_len: i32 = (longer + 1) as i32;
    let report = policy.candidate_condition(generous_match_len, completed_blocks, cns.config.thresh, errors)
        && last_operation.allows_candidates();
    assert(report == may_report(policy, cns@, w));
    if report {
        match extend_interval(index, lower, upper, SENTINEL) {
            None => {
                return Err(SearchError::RankOutOfRange);
            },
            Some((lo, hi)) => {
                if lo < hi {
                    if hi > index.len() {
                        return Err(SearchError::RankOutOfRange);
                    }
                    let positions = index.positions(&Interval { lower: lo, upper: hi });
                    assert(positions@ =~= positions_between(index, lo as int, hi as int));
                    match add_candidates_from_positions(positions, cand_set, cns, a_match_len, b_match_len, false) {
                        Err(e) => {
                            return Err(e);
                        },
                        Ok(()) => {},
                    }
                }
            },
        }
    }
    let ghost acc1 = cand_set@;
    if p_i <= -1 {
        if cns.config.inclusions && report {
            let positions = index.positions(&Interval { lower, upper: upper + 1 });
            assert(positions@ =~= positions_between(index, lower as int, upper + 1));
            return add_candidates_from_positions(positions, cand_set, cns, a_match_len, b_match_len, true);
        }
        return Ok(());
    }
    let p_char = cns.pattern[p_i as usize];
    let alphabet = cns.config.alphabet();
    let mut k: usize = 0;
    while k < alphabet.len()
        invariant
            cand_set.wf(),
            cns@.wf(),
            serves_search(index, cns.config),
            w.ok(cns@),
            w == (Walk { errors, p_i, last_operation, a_match_len, b_match_len, lower, upper }),
            0 <= p_i,
            lower == match_interval.lower,
            upper == match_interval.upper,
            lower <= upper < index.rows(),
            p_char == cns.pattern@[p_i as int],
            alphabet@ == cns.config.spec_alphabet(),
            permitted_errors == permitted(policy, cns@, p_i as int),
            k <= alphabet@.len(),
            start == old(cand_set)@,
            branches_outcome(index, policy, cns@, acc1, w, 0) is Err ==> walk_outcome(
                index,
                policy,
                cns@,
                start,
                w,
            ) == branches_outcome(index, policy, cns@, acc1, w, 0),
            branches_outcome(index, policy, cns@, cand_set@, w, k as int) == branches_outcome(
                index,
                policy,
                cns@,
                acc1,
                w,
                0,
            ),
            start.subset_of(cand_set@),
            forall|c: Candidate| cand_set@.contains(c) ==> start.contains(c) || cns@.reportable(c),
        decreases alphabet@.len() - k,
    {
        let a = alphabet[k];
        let ghost cur = cand_set@;
        let (lo, hi) = match extend_interval(index, lower, upper, a) {
            None => {
                assert(branches_outcome(index, policy, cns@, cur, w, k as int) == Err::<
                    Set<Candidate>,
                    SearchError,
                >(SearchError::RankOutOfRange));
                return Err(SearchError::RankOutOfRange);
            },
            Some(next) => next,
        };
        let recurse_errors = if p_char == a && a != READ_ERR {
            errors
        } else {
            errors + 1
        };
        if hi > 0 && recurse_errors <= permitted_errors {
            match recurse(
                index,
                policy,
                cand_set,
                cns,
                recurse_errors,
                p_i - 1,
                LastOperation::Substitution,
                a_match_len + 1,
                b_match_len + 1,
                &Interval { lower: lo, upper: hi - 1 },
            ) {
                Err(e) => {
                    assert(branches_outcome(index, policy, cns@, cur, w, k as int) == Err::<
                        Set<Candidate>,
                        SearchError,
                    >(e));
                    return Err(e);
                },
                Ok(()) => {},
            }
        }
        let ghost cur1 = cand_set@;
        if hi > 0 && errors < permitted_errors && cns.config.edit_distance && last_operation.allows_insertion()
            && p_char != a {
            match recurse(
                index,
                policy,
                cand_set,
                cns,
                errors + 1,
                p_i,
                LastOperation::Insertion,
                a_match_len,
                b_match_len + 1,
                &Interval { lower: lo, upper: hi - 1 },
            ) {
                Err(e) => {
                    assert(branches_outcome(index, policy, cns@, cur, w, k as int) == Err::<
                        Set<Candidate>,
                        SearchError,
                    >(e));
                    return Err(e);
                },
                Ok(()) => {},
            }
        }
        k += 1;
    }
    if cns.config.edit_distance && errors < permitted_errors && last_operation.allows_deletion() {
        return recurse(
            index,
            policy,
            cand_set,
            cns,
            errors + 1,
            p_i - 1,
            LastOperation::Deletion,
            a_match_len + 1,
            b_match_len,
            match_interval,
        );
    }
    Ok(())
}

/// The longest stretch of another sequence that a query of `patt_len`
/// symbols can match: its own length, or, where indels are searched for,
/// that length stretched by the error rate, as far as a length can go.
pub open spec fn longest_match(patt_len: nat, config: Config) -> usize {
    if !config.edit_distance {
        patt_len as usize
    } else if config.err_rate.stretched(patt_len) <= usize::MAX {
        config.err_rate.stretched(patt_len) as usize
    } else {
        usize::MAX
    }
}

/// The filter that starts with block `k` of a query cut into blocks of
/// `lengths`: blind for the blocks before `k`, with the errors that the
/// whole query may hold for its cap, and with the longest stretch that the
/// query can match.
pub open spec fn filter_of(
    pattern: Seq<u8>,
    config: Config,
    maps: Maps,
    id_a: usize,
    lengths: Seq<i32>,
    k: int,
) -> Filter {
    Filter {
        config,
        maps,
        block_id_lookup: block_id_lookup(lengths),
        pattern,
        id_a,
        blind_a_chars: total_length(lengths.take(k)) as usize,
        hard_error_cap: config.err_rate.allowed(pattern.len()) as i32,
        max_b_len: longest_match(pattern.len(), config),
        first_block_id: k as i32,
        patt_blocks: lengths.len() as i32,
    }
}

/// The walk that a filter starts with: nothing read, no error spent, and
/// every rank of the index.
pub open spec fn first_walk(cns: Filter, rows: nat) -> Walk {
    Walk {
        errors: 0,
        p_i: (cns.pattern.len() - 1 - cns.blind_a_chars) as i32,
        last_operation: LastOperation::Initial,
        a_match_len: 0,
        b_match_len: 0,
        lower: 0,
        upper: (rows - 1) as usize,
    }
}

/// What the filters from the `k`-th on give when their candidates join
/// `acc`: the set that results, or the first error met.
pub open spec fn filters_outcome<I: RankIndex + ?Sized, P: FilterPolicy>(
    index: &I,
    policy: &P,
    pattern: Seq<u8>,
    config: Config,
    maps: Maps,
    id_a: usize,
    lengths: Seq<i32>,
    acc: Set<Candidate>,
    k: int,
) -> Result<Set<Candidate>, SearchError>
    decreases lengths.len() - k,
{
    if k < 0 || k >= lengths.len() {
        Ok(acc)
    } else {
        let cns = filter_of(pattern, config, maps, id_a, lengths, k);
        match walk_outcome(index, policy, cns, acc, first_walk(cns, index.rows())) {
            Err(e) => Err(e),
            Ok(acc1) => filters_outcome(index, policy, pattern, config, maps, id_a, lengths, acc1, k + 1),
        }
    }
}

/// The first of `symbols[k..]` that the index does not answer for.
pub open spec fn first_unserved<I: RankIndex + ?Sized>(index: &I, symbols: Seq<u8>, k: int) -> Option<u8>
    decreases symbols.len() - k,
{
    if k < 0 || k >= symbols.len() {
        None
    } else if !index.serves(symbols[k]) {
        Some(symbols[k])
    } else {
        first_unserved(index, symbols, k + 1)
    }
}

/// The first of `pattern[k..]` that is not among `alphabet`.
pub open spec fn first_foreign(pattern: Seq<u8>, alphabet: Seq<u8>, k: int) -> Option<u8>
    decreases pattern.len() - k,
{
    if k < 0 || k >= pattern.len() {
        None
    } else if !alphabet.contains(pattern[k]) {
        Some(pattern[k])
    } else {
        first_foreign(pattern, alphabet, k + 1)
    }
}

/// What the search for a query gives: its candidates, or the reason for
/// which it was given up.
///
/// The search is given up before it starts where the index does not answer
/// for `$` or for a symbol of the alphabet, or has no rank, and where the
/// blocks of the policy do not cut the query. Else, for each block in turn,
/// from the block at the query's end on, a filter is searched that starts
/// with that block.
pub open spec fn search_outcome<I: RankIndex + ?Sized, P: FilterPolicy>(
    index: &I,
    policy: &P,
    pattern: Seq<u8>,
    config: Config,
    maps: Maps,
    id_a: usize,
) -> Result<Set<Candidate>, SearchError> {
    if !index.serves(SENTINEL) {
        Err(SearchError::UnservedSymbol(SENTINEL))
    } else if first_unserved(index, config.spec_alphabet(), 0) is Some {
        Err(SearchError::UnservedSymbol(first_unserved(index, config.spec_alphabet(), 0)->Some_0))
    } else if index.rows() == 0 {
        Err(SearchError::RankOutOfRange)
    } else if !cuts_query(
        policy.block_lengths(pattern.len() as int, config.err_rate, config.thresh as int),
        pattern.len() as int,
    ) {
        Err(SearchError::BadBlocks)
    } else {
        filters_outcome(
            index,
            policy,
            pattern,
            config,
            maps,
            id_a,
            policy.block_lengths(pattern.len() as int, config.err_rate, config.thresh as int),
            Set::empty(),
            0,
        )
    }
}

/// Every entry of the lookup is the number of a block.
pub proof fn lemma_lookup_names_blocks(lengths: Seq<i32>, i: int)
    requires
        0 <= i < block_id_lookup(lengths).len(),
        lengths.len() <= i32::MAX,
    ensures
        0 <= block_id_lookup(lengths)[i] < lengths.len(),
    decreases lengths.len(),
{
    if lengths.len() > 0 {
        let copies: nat = if lengths.last() > 0 {
            lengths.last() as nat
        } else {
            0
        };
        if i >= copies {
            lemma_lookup_names_blocks(lengths.drop_last(), i - copies);
        }
    }
}

/// The blocks before the `k`-th are together no longer than all blocks.
pub proof fn lemma_blocks_before(lengths: Seq<i32>, k: int)
    requires
        0 <= k <= lengths.len(),
        forall|i: int| 0 <= i < lengths.len() ==> lengths[i] >= 0,
    ensures
        0 <= total_length(lengths.take(k)) <= total_length(lengths),
        k < lengths.len() ==> total_length(lengths.take(k + 1)) == total_length(lengths.take(k)) + lengths[k],
    decreases lengths.len() - k,
{
    if k < lengths.len() {
        assert(lengths.take(k + 1).drop_last() =~= lengths.take(k));
        lemma_blocks_before(lengths, k + 1);
        lemma_total_nonnegative(lengths.take(k));
    } else {
        assert(lengths.take(k) =~= lengths);
        lemma_total_nonnegative(lengths);
    }
}

proof fn lemma_total_nonnegative(lengths: Seq<i32>)
    requires
        forall|i: int| 0 <= i < lengths.len() ==> lengths[i] >= 0,
    ensures
        0 <= total_length(lengths),
    decreases lengths.len(),
{
    if lengths.len() > 0 {
        lemma_total_nonnegative(lengths.drop_last());
    }
}

/// Whether `lengths` cut a query of `patt_len` symbols into blocks.
fn cuts(lengths: &Vec<i32>, patt_len: usize) -> (r: bool)
    ensures
        r == cuts_query(lengths@, patt_len as int),
{
    if lengths.len() > i32::MAX as usize {
        return false;
    }
    let mut sum: i64 = 0;
    let mut k: usize = 0;
    assert(lengths@.take(0) =~= Seq::<i32>::empty());
    while k < lengths.len()
        invariant
            k <= lengths@.len() <= i32::MAX,
            forall|i: int| 0 <= i < k ==> lengths@[i] >= 0,
            sum == total_length(lengths@.take(k as int)),
            0 <= sum <= k * 0x7fff_ffff,
        decreases lengths@.len() - k,
    {
        if lengths[k] < 0 {
            return false;
        }
        assert(lengths@.take(k + 1).drop_last() =~= lengths@.take(k as int));
        sum += lengths[k] as i64;
        k += 1;
    }
    assert(lengths@.take(lengths@.len() as int) =~= lengths@);
    patt_len as u64 == sum as u64
}

/// Whether `a` is one of `symbols`.
fn among(symbols: &Vec<u8>, a: u8) -> (r: bool)
    ensures
        r == symbols@.contains(a),
{
    let mut i: usize = 0;
    while i < symbols.len()
        invariant
            i <= symbols@.len(),
            forall|j: int| 0 <= j < i ==> symbols@[j] != a,
        decreases symbols@.len() - i,
    {
        if symbols[i] == a {
            return true;
        }
        i += 1;
    }
    false
}

/// The first symbol of `pattern` that is not among `alphabet`. A query may
/// be searched for only where there is none.
pub fn foreign_symbol(pattern: &[u8], alphabet: &Vec<u8>) -> (r: Option<u8>)
    ensures
        r == first_foreign(pattern@, alphabet@, 0),
{
    let mut k: usize = 0;
    while k < pattern.len()
        invariant
            k <= pattern@.len(),
            first_foreign(pattern@, alphabet@, k as int) == first_foreign(pattern@, alphabet@, 0),
        decreases pattern@.len() - k,
    {
        if !among(alphabet, pattern[k]) {
            return Some(pattern[k]);
        }
        k += 1;
    }
    None
}

/// The first of `symbols` that the index does not answer for.
fn unserved_symbol<I: RankIndex + ?Sized>(index: &I, symbols: &Vec<u8>) -> (r: Option<u8>)
    ensures
        r == first_unserved(index, symbols@, 0),
{
    let mut k: usize = 0;
    while k < symbols.len()
        invariant
            k <= symbols@.len(),
            first_unserved(index, symbols@, k as int) == first_unserved(index, symbols@, 0),
        decreases symbols@.len() - k,
    {
        if !index.supports(symbols[k]) {
            return Some(symbols[k]);
        }
        k += 1;
    }
    None
}

/// Searches `index` for every sequence that the query `pattern`, which is
/// sequence `id_a`, overlaps with or lies in, under the filters of `policy`.
#[verifier::loop_isolation(false)]
pub fn generate<I: RankIndex + ?Sized, P: FilterPolicy>(
    index: &I,
    policy: &P,
    pattern: &[u8],
    config: &Config,
    maps: &Maps,
    id_a: usize,
) -> (r: Result<CandidateSet, SearchError>)
    requires
        config.err_rate.wf(),
        maps.wf(),
        id_a < maps.num_ids,
        maps.text@.len() <= i32::MAX,
        pattern@.len() < 0x4000_0000,
        first_foreign(pattern@, config.spec_alphabet(), 0) is None,
    ensures
        match search_outcome(index, policy, pattern@, *config, *maps, id_a) {
            Ok(found) => r matches Ok(set) && set.wf() && set@ == found,
            Err(e) => r matches Err(given) && given == e,
        },
        r matches Ok(set) ==> forall|c: Candidate|
            set@.contains(c) ==> reportable(config, maps, id_a, pattern@.len(), c),
        config.edit_distance ==> (r matches Ok(set) ==> forall|c: Candidate| set@.contains(c) ==> id_a < c.id_b),
        r matches Ok(set) ==> forall|c: Candidate|
            set@.contains(c) ==> pattern@.len() - c.spec_a1() - c.overlap_a == 0 && (c.spec_a1() == 0
                || c.spec_b1() == 0),
{
    if !index.supports(SENTINEL) {
        return Err(SearchError::UnservedSymbol(SENTINEL));
    }
    let alphabet = config.alphabet();
    match unserved_symbol(index, &alphabet) {
        Some(a) => {
            return Err(SearchError::UnservedSymbol(a));
        },
        None => {},
    }
    assert(serves_search(index, config)) by {
        lemma_all_served(index, config.spec_alphabet(), 0);
    }
    let rows = index.len();
    if rows == 0 {
        return Err(SearchError::RankOutOfRange);
    }
    let patt_len = pattern.len();
    let block_lengths = policy.get_block_lengths(patt_len as i32, &config.err_rate, config.thresh);
    if !cuts(&block_lengths, patt_len) {
        return Err(SearchError::BadBlocks);
    }
    let block_id_lookup = get_block_id_lookup(&block_lengths);
    let ghost lengths = block_lengths@;
    let mut candidate_set = CandidateSet::new();
    let full_interval = Interval { lower: 0, upper: rows - 1 };
    let patt_blocks: i32 = block_lengths.len() as i32;
    let hard_error_cap: i32 = config.err_rate.max_errors(patt_len) as i32;
    let max_b_len = if config.edit_distance {
        config.err_rate.max_counterpart(patt_len, usize::MAX)
    } else {
        patt_len
    };
    let mut consumed: usize = 0;
    let mut block_id: usize = 0;
    proof {
        assert(lengths.take(0) =~= Seq::<i32>::empty());
        assert forall|i: int| 0 <= i < block_id_lookup@.len() implies 0 <= #[trigger] block_id_lookup@[i]
            <= patt_blocks by {
            lemma_lookup_names_blocks(lengths, i);
        }
    }
    while block_id < block_lengths.len()
        invariant
            candidate_set.wf(),
            block_id <= lengths.len(),
            consumed == total_length(lengths.take(block_id as int)),
            consumed <= patt_len,
            filters_outcome(
                index,
                policy,
                pattern@,
                *config,
                *maps,
                id_a,
                lengths,
                candidate_set@,
                block_id as int,
            ) == filters_outcome(index, policy, pattern@, *config, *maps, id_a, lengths, Set::empty(), 0),
            forall|c: Candidate|
                candidate_set@.contains(c) ==> reportable(config, maps, id_a, pattern@.len(), c),
        decreases lengths.len() - block_id,
    {
        let cns = SearchConstants {
            config,
            maps,
            block_id_lookup: &block_id_lookup,
            pattern,
            id_a,
            blind_a_chars: consumed,
            hard_error_cap,
            max_b_len,
            first_block_id: block_id as i32,
            patt_blocks,
        };
        assert(cns@ == filter_of(pattern@, *config, *maps, id_a, lengths, block_id as int));
        let ghost before = candidate_set@;
        match recurse(
            index,
            policy,
            &mut candidate_set,
            &cns,
            0,
            (patt_len - consumed) as i32 - 1,
            LastOperation::Initial,
            0,
            0,
            &full_interval,
        ) {
            Err(e) => {
                return Err(e);
            },
            Ok(()) => {},
        }
        proof {
            lemma_blocks_before(lengths, block_id as int);
            lemma_blocks_before(lengths, block_id + 1);
            assert forall|c: Candidate| candidate_set@.contains(c) implies reportable(
                config,
                maps,
                id_a,
                pattern@.len(),
                c,
            ) by {
                if !before.contains(c) {
                    assert(cns@.reportable(c));
                }
            }
        }
        consumed += block_lengths[block_id] as usize;
        block_id += 1;
    }
    Ok(candidate_set)
}

/// Where no symbol from the `k`-th on is unserved, each of them is served.
proof fn lemma_all_served<I: RankIndex + ?Sized>(index: &I, symbols: Seq<u8>, k: int)
    requires
        0 <= k,
        first_unserved(index, symbols, k) is None,
    ensures
        forall|i: int| k <= i < symbols.len() ==> index.serves(#[trigger] symbols[i]),
    decreases symbols.len() - k,
{
    if k < symbols.len() {
        lemma_all_served(index, symbols, k + 1);
    }
}

/// An index that candidates can be searched in.
pub trait GeneratesCandidates: RankIndex {
    /// Every candidate for an overlap of the query `pattern`, which is
    /// sequence `id_a`, with another sequence, or for its inclusion in one.
    fn generate_candidates<P: FilterPolicy>(
        &self,
        pattern: &[u8],
        config: &Config,
        maps: &Maps,
        id_a: usize,
        policy: &P,
    ) -> (r: Result<CandidateSet, SearchError>)
        requires
            config.err_rate.wf(),
            maps.wf(),
            id_a < maps.num_ids,
            maps.text@.len() <= i32::MAX,
            pattern@.len() < 0x4000_0000,
            first_foreign(pattern@, config.spec_alphabet(), 0) is None,
        ensures
            match search_outcome(self, policy, pattern@, *config, *maps, id_a) {
                Ok(found) => r matches Ok(set) && set.wf() && set@ == found,
                Err(e) => r matches Err(given) && given == e,
            },
            r matches Ok(set) ==> forall|c: Candidate|
                set@.contains(c) ==> reportable(config, maps, id_a, pattern@.len(), c),
            config.edit_distance ==> (r matches Ok(set) ==> forall|c: Candidate| set@.contains(c) ==> id_a < c.id_b),
            r matches Ok(set) ==> forall|c: Candidate|
                set@.contains(c) ==> pattern@.len() - c.spec_a1() - c.overlap_a == 0 && (c.spec_a1() == 0
                    || c.spec_b1() == 0),
    {
        generate(self, policy, pattern, config, maps, id_a)
    }

    /// The search of one filter from one state of its walk on.
    fn recurse_candidates<P: FilterPolicy>(
        &self,
        cand_set: &mut CandidateSet,
        cns: &SearchConstants,
        errors: i32,
        p_i: i32,
        last_operation: LastOperation,
        a_match_len: usize,
        b_match_len: usize,
        match_interval: &Interval,
        policy: &P,
    ) -> (r: Result<(), SearchError>)
        requires
            old(cand_set).wf(),
            cns@.wf(),
            serves_search(self, cns.config),
            (Walk {
                errors,
                p_i,
                last_operation,
                a_match_len,
                b_match_len,
                lower: match_interval.lower,
                upper: match_interval.upper,
            }).ok(cns@),
        ensures
            final(cand_set).wf(),
            old(cand_set)@.subset_of(final(cand_set)@),
            match walk_outcome(
                self,
                policy,
                cns@,
                old(cand_set)@,
                Walk {
                    errors,
                    p_i,
                    last_operation,
                    a_match_len,
                    b_match_len,
                    lower: match_interval.lower,
                    upper: match_interval.upper,
                },
            ) {
                Ok(found) => r is Ok && final(cand_set)@ == found,
                Err(e) => r == Err::<(), SearchError>(e),
            },
            forall|c: Candidate|
                final(cand_set)@.contains(c) ==> old(cand_set)@.contains(c) || cns@.reportable(c),
    {
        recurse(self, policy, cand_set, cns, errors, p_i, last_operation, a_match_len, b_match_len, match_interval)
    }
}

impl GeneratesCandidates for crate::index::TextIndex {

}

/// Where indels are searched for, an overlap of two sequences is reported
/// by the search for the one with the smaller id, and never by the search
/// for the other.
pub proof fn lemma_indel_search_looks_upward(
    config: &Config,
    maps: &Maps,
    id_a: usize,
    a_len: nat,
    c: Candidate,
)
    requires
        config.edit_distance,
        reportable(config, maps, id_a, a_len, c),
    ensures
        id_a < c.id_b,
        forall|b_len: nat, back: Candidate| back.id_b == id_a ==> !reportable(config, maps, c.id_b, b_len, back),
{
}

/// Every candidate that a search reports fills its query up to the
/// query's end, and of the parts of the two sequences before the overlap,
/// one is empty.
pub proof fn lemma_reported_geometry(config: &Config, maps: &Maps, id_a: usize, a_len: nat, c: Candidate)
    requires
        reportable(config, maps, id_a, a_len, c),
    ensures
        a_len - c.spec_a1() - c.overlap_a == 0,
        c.spec_a1() == 0 || c.spec_b1() == 0,
{
}

/// Where no indels are searched for, a hit gives at most one candidate.
pub proof fn lemma_hit_gives_one_candidate(
    cns: Filter,
    id_b: int,
    b1: int,
    a_match_len: nat,
    b_match_len: nat,
    inclusion: bool,
    one: Candidate,
    other: Candidate,
)
    requires
        !cns.config.edit_distance,
        cns.candidates_of(id_b, b1, a_match_len, b_match_len, inclusion).contains(one),
        cns.candidates_of(id_b, b1, a_match_len, b_match_len, inclusion).contains(other),
    ensures
        one == other,
{
}

} // verus!
