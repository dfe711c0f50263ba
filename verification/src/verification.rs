//! The verification of candidates: the exact error count of each, the threshold it
//! must keep, and the turn of an accepted candidate into a solution in
//! external coordinates.

use crate::search::{reportable, READ_ERR};
use crate::structs::run_config::{Config, Maps};
use crate::structs::solutions::{Candidate, CandidateSet, Identity, Solution, SolutionSet};
use crate::useful::{companion_id, for_reversed_string, relative_orientation};
use bio::alignment::distance::{hamming, levenshtein};
use vstd::prelude::*;
use vstd::slice::slice_subrange;
use vstd::string::StringSliceAdditionalSpecFns;
use vstd::utf8::encode_utf8;

verus! {

/// In how many places `a` and `b` differ, as far as both reach.
pub open spec fn mismatches(a: Seq<u8>, b: Seq<u8>) -> nat
    decreases a.len(),
{
    if a.len() == 0 || b.len() == 0 {
        0
    } else {
        mismatches(a.drop_last(), b.drop_last()) + if a.last() != b.last() {
            1nat
        } else {
            0nat
        }
    }
}

/// The least number of substitutions, insertions and deletions of single
/// symbols that turn `a` into `b`.
pub open spec fn edit_distance(a: Seq<u8>, b: Seq<u8>) -> nat
    decreases a.len() + b.len(),
{
    if a.len() == 0 {
        b.len()
    } else if b.len() == 0 {
        a.len()
    } else {
        let substituted = edit_distance(a.drop_last(), b.drop_last()) + if a.last() == b.last() {
            0nat
        } else {
            1nat
        };
        let deleted = edit_distance(a.drop_last(), b) + 1;
        let inserted = edit_distance(a, b.drop_last()) + 1;
        if substituted <= deleted && substituted <= inserted {
            substituted
        } else if deleted <= inserted {
            deleted
        } else {
            inserted
        }
    }
}

/// `hamming` of `bio::alignment::distance`, for two texts of one length:
/// the number of places in which they differ.
#[verifier::external_body]
fn hamming_distance(a: &[u8], b: &[u8]) -> (r: u64)
    requires
        a@.len() == b@.len(),
    ensures
        r == mismatches(a@, b@),
{
    hamming(a, b)
}

/// `levenshtein` of `bio::alignment::distance`, for two texts whose
/// lengths 32 bits hold: their edit distance.
#[verifier::external_body]
fn levenshtein_distance(a: &[u8], b: &[u8]) -> (r: u32)
    requires
        a@.len() <= u32::MAX,
        b@.len() <= u32::MAX,
    ensures
        r == edit_distance(a@, b@),
{
    levenshtein(a, b)
}

/// The edit distance of two texts is at most the length of the longer.
pub proof fn lemma_edit_distance_bound(a: Seq<u8>, b: Seq<u8>)
    ensures
        edit_distance(a, b) <= a.len() || edit_distance(a, b) <= b.len(),
    decreases a.len() + b.len(),
{
    if a.len() > 0 && b.len() > 0 {
        lemma_edit_distance_bound(a.drop_last(), b.drop_last());
    }
}

/// What the first symbols of `a` and `b`, or their last, cost: 1 where they
/// differ or are both unread, else 0.
pub open spec fn end_error(a: Seq<u8>, b: Seq<u8>, first: bool) -> nat {
    let x = if first {
        a[0]
    } else {
        a[a.len() - 1]
    };
    let y = if first {
        b[0]
    } else {
        b[b.len() - 1]
    };
    if x != y || x == READ_ERR {
        1
    } else {
        0
    }
}

/// The distance of two overlapping stretches, whose ends never match for
/// free: the ends are scored as substitutions, and what lies between them
/// by its edit distance. Two stretches of one length of at most 2 are
/// scored symbol by symbol. Where a stretch is shorter than 2 and the
/// lengths differ there is no distance, and the greatest number stands for
/// it.
pub open spec fn overlap_distance(a: Seq<u8>, b: Seq<u8>) -> nat {
    if a.len() == b.len() && a.len() <= 2 {
        (if a.len() >= 1 {
            end_error(a, b, true)
        } else {
            0
        }) + (if a.len() >= 2 {
            end_error(a, b, false)
        } else {
            0
        })
    } else if a.len() < 2 || b.len() < 2 {
        u32::MAX as nat
    } else {
        edit_distance(a.subrange(1, a.len() - 1), b.subrange(1, b.len() - 1)) + end_error(a, b, true) + end_error(
            a,
            b,
            false,
        )
    }
}

pub fn error_at_pos_in_both(a_part: &[u8], b_part: &[u8], first: bool) -> (r: u32)
    requires
        a_part@.len() >= 1,
        b_part@.len() >= 1,
    ensures
        r == end_error(a_part@, b_part@, first),
{
    let a_ind = if first {
        0
    } else {
        a_part.len() - 1
    };
    let b_ind = if first {
        0
    } else {
        b_part.len() - 1
    };
    if a_part[a_ind] != b_part[b_ind] {
        1
    } else if a_part[a_ind] == READ_ERR {
        1
    } else {
        0
    }
}

/// The distance of two overlapping stretches, whose first and last symbols
/// are always scored as substitutions.
pub fn modified_levenshtein(a_part: &[u8], b_part: &[u8]) -> (r: u32)
    requires
        a_part@.len() <= i32::MAX,
        b_part@.len() <= i32::MAX,
    ensures
        r == overlap_distance(a_part@, b_part@),
{
    if a_part.len() == b_part.len() && a_part.len() <= 2 {
        let mut errs: u32 = 0;
        if a_part.len() >= 1 {
            errs += error_at_pos_in_both(a_part, b_part, true);
        }
        if a_part.len() >= 2 {
            errs += error_at_pos_in_both(a_part, b_part, false);
        }
        return errs;
    }
    if a_part.len() < 2 || b_part.len() < 2 {
        return u32::MAX;
    }
    let first_char_err = error_at_pos_in_both(a_part, b_part, true);
    let last_char_err = error_at_pos_in_both(a_part, b_part, false);
    let a_inner = slice_subrange(a_part, 1, a_part.len() - 1);
    let b_inner = slice_subrange(b_part, 1, b_part.len() - 1);
    proof {
        lemma_edit_distance_bound(a_inner@, b_inner@);
    }
    levenshtein_distance(a_inner, b_inner) + first_char_err + last_char_err
}

/// Whether `a` comes before `b`, or is `b`, in the order of a dictionary
/// over bytes.
pub open spec fn lex_le(a: Seq<u8>, b: Seq<u8>) -> bool
    decreases a.len(),
{
    if a.len() == 0 {
        true
    } else if b.len() == 0 {
        false
    } else if a[0] != b[0] {
        a[0] < b[0]
    } else {
        lex_le(a.drop_first(), b.drop_first())
    }
}

/// Of two texts, one comes before the other or is the other.
pub proof fn lemma_lex_le_total(a: Seq<u8>, b: Seq<u8>)
    ensures
        lex_le(a, b) || lex_le(b, a),
    decreases a.len(),
{
    if a.len() > 0 && b.len() > 0 && a[0] == b[0] {
        lemma_lex_le_total(a.drop_first(), b.drop_first());
    }
}

fn bytes_in_order(a: &[u8], b: &[u8]) -> (r: bool)
    ensures
        r == lex_le(a@, b@),
{
    let mut i: usize = 0;
    assert(a@.skip(0) =~= a@ && b@.skip(0) =~= b@);
    loop
        invariant
            i <= a@.len(),
            i <= b@.len(),
            lex_le(a@.skip(i as int), b@.skip(i as int)) == lex_le(a@, b@),
        decreases a@.len() - i,
    {
        if i == a.len() {
            return true;
        }
        if i == b.len() {
            return false;
        }
        assert(a@.skip(i as int)[0] == a@[i as int] && b@.skip(i as int)[0] == b@[i as int]);
        if a[i] != b[i] {
            return a[i] < b[i];
        }
        assert(a@.skip(i as int).drop_first() =~= a@.skip(i + 1));
        assert(b@.skip(i as int).drop_first() =~= b@.skip(i + 1));
        i += 1;
    }
}

/// Whether the name of `id_a` comes before the name of `id_b`, or is the
/// same, in the order of a dictionary.
pub open spec fn names_in_order(maps: &Maps, id_a: usize, id_b: usize) -> bool {
    lex_le(encode_utf8(maps.id2name_vec@[id_a as int]@), encode_utf8(maps.id2name_vec@[id_b as int]@))
}

/// Whether the two sequences of `sol` stand in the order of their names.
pub fn id_order_ok(sol: &Solution, maps: &Maps) -> (r: bool)
    requires
        sol.id_a < maps.id2name_vec@.len(),
        sol.id_b < maps.id2name_vec@.len(),
    ensures
        r == names_in_order(maps, sol.id_a, sol.id_b),
{
    bytes_in_order(maps.get_name_for(sol.id_a).as_bytes(), maps.get_name_for(sol.id_b).as_bytes())
}

/// An overlap in external coordinates: with its sequences in the order of
/// their names, with the first of them as it was given and not its reverse
/// complement, and read from the other end, since the text holds every
/// sequence reversed.
pub open spec fn canonical(found: Identity, config: &Config, maps: &Maps) -> Identity {
    let ordered = if names_in_order(maps, found.id_a, found.id_b) {
        found
    } else {
        found.v_flip()
    };
    let upright = if config.reversals && for_reversed_string(ordered.id_a) {
        ordered.h_flip(config.reversals)
    } else {
        ordered
    };
    upright.mirror()
}

pub fn translate_solution_to_external(sol: &mut Solution, config: &Config, maps: &Maps)
    requires
        old(sol).id_a != old(sol).id_b,
        config.reversals ==> old(sol).id_a != companion_id(old(sol).id_b, config.reversals),
        old(sol).id_a < maps.id2name_vec@.len(),
        old(sol).id_b < maps.id2name_vec@.len(),
        old(sol).flippable(),
    ensures
        final(sol).identity() == canonical(old(sol).identity(), config, maps),
        final(sol).errors == old(sol).errors,
        final(sol).cigar == old(sol).cigar,
        config.reversals ==> !for_reversed_string(final(sol).id_a),
        final(sol).id_a != final(sol).id_b,
{
    if !id_order_ok(sol, maps) {
        sol.v_flip();
        proof {
            lemma_lex_le_total(
                encode_utf8(maps.id2name_vec@[sol.id_a as int]@),
                encode_utf8(maps.id2name_vec@[sol.id_b as int]@),
            );
        }
    }
    assert(names_in_order(maps, sol.id_a, sol.id_b));
    if config.reversals {
        if for_reversed_string(sol.id_a) {
            sol.h_flip(config.reversals);
        }
        assert(!for_reversed_string(sol.id_a));
    }
    sol.mirror_horizontally();
    assert(!config.reversals || sol.id_a % 2 == 0);
}

/// Two texts differ in at most as many places as the first is long.
pub proof fn lemma_mismatches_bound(a: Seq<u8>, b: Seq<u8>)
    ensures
        mismatches(a, b) <= a.len(),
    decreases a.len(),
{
    if a.len() > 0 && b.len() > 0 {
        lemma_mismatches_bound(a.drop_last(), b.drop_last());
    }
}

/// Whether candidate `c` of query `id_a` can be held against the text:
/// the maps are in order and small enough for 32-bit overhangs, `c` names
/// another sequence than the query and its reverse complement, it fills the
/// query up to its end and fits the sequence it names, and its two overlaps
/// are as long as each other where no indels are searched for.
pub open spec fn verifiable(c: Candidate, id_a: usize, config: &Config, maps: &Maps) -> bool {
    &&& config.err_rate.wf()
    &&& maps.wf()
    &&& id_a < maps.num_ids
    &&& maps.text@.len() <= i32::MAX
    &&& c.id_b < maps.num_ids
    &&& c.id_b != id_a
    &&& c.id_b != companion_id(id_a, config.reversals)
    &&& !config.edit_distance ==> c.overlap_a == c.overlap_b
    &&& c.fits(maps.string(id_a as int).len(), maps.string(c.id_b as int).len())
}

/// What a search for sequence `id_a` of well-formed maps reports can be
/// held against the text.
pub proof fn lemma_reported_is_verifiable(c: Candidate, id_a: usize, config: &Config, maps: &Maps)
    requires
        config.err_rate.wf(),
        maps.wf(),
        id_a < maps.num_ids,
        maps.text@.len() <= i32::MAX,
        reportable(config, maps, id_a, maps.string(id_a as int).len(), c),
    ensures
        verifiable(c, id_a, config, maps),
{
}

/// The stretch of the query that `c` overlaps with.
pub open spec fn a_part(c: Candidate, id_a: usize, maps: &Maps) -> Seq<u8> {
    maps.string(id_a as int).subrange(c.spec_a1() as int, c.spec_a1() + c.overlap_a)
}

/// The stretch of the matched sequence that `c` overlaps with.
pub open spec fn b_part(c: Candidate, maps: &Maps) -> Seq<u8> {
    maps.string(c.id_b as int).subrange(c.spec_b1() as int, c.spec_b1() + c.overlap_b)
}

/// The exact number of errors of `c`: the distance of the two stretches
/// where indels are searched for, else the number of places in which they
/// differ.
pub open spec fn error_count(c: Candidate, id_a: usize, config: &Config, maps: &Maps) -> nat {
    if config.edit_distance {
        overlap_distance(a_part(c, id_a, maps), b_part(c, maps))
    } else {
        mismatches(a_part(c, id_a, maps), b_part(c, maps))
    }
}

/// The errors that an overlap of these two lengths may hold: the error
/// rate times the greater length, rounded down.
pub open spec fn error_limit(overlap_a: usize, overlap_b: usize, config: &Config) -> nat {
    config.err_rate.allowed(
        if overlap_a >= overlap_b {
            overlap_a as nat
        } else {
            overlap_b as nat
        },
    )
}

/// Whether `c` is accepted: its errors are within the limit.
pub open spec fn accepted(c: Candidate, id_a: usize, config: &Config, maps: &Maps) -> bool {
    error_count(c, id_a, config, maps) <= error_limit(c.overlap_a, c.overlap_b, config)
}

/// The overlap that `c` stands for, in the coordinates of the text.
pub open spec fn found_identity(c: Candidate, id_a: usize, config: &Config, maps: &Maps) -> Identity {
    Identity {
        id_a,
        id_b: c.id_b,
        orientation: relative_orientation(id_a, c.id_b, config.reversals),
        overhang_left_a: c.overhang_left_a,
        overhang_right_b: (maps.string(c.id_b as int).len() - c.spec_b1() - c.overlap_b) as i32,
        overlap_a: c.overlap_a,
        overlap_b: c.overlap_b,
    }
}

/// The identity of the solution that `c` becomes when it is accepted.
pub open spec fn solution_identity(c: Candidate, id_a: usize, config: &Config, maps: &Maps) -> Identity {
    canonical(found_identity(c, id_a, config, maps), config, maps)
}

/// Whether `errors` errors are within the limit of an overlap of these two
/// lengths.
pub fn within_limit(errors: u32, overlap_a: usize, overlap_b: usize, config: &Config) -> (r: bool)
    requires
        config.err_rate.wf(),
    ensures
        r == (errors <= error_limit(overlap_a, overlap_b, config)),
{
    let longer = if overlap_a >= overlap_b {
        overlap_a
    } else {
        overlap_b
    };
    let k_limit = config.err_rate.max_errors(longer);
    errors as u64 <= k_limit as u64
}

/// A candidate with exactly as many errors as its limit is accepted, and
/// one with one error more is not.
pub proof fn lemma_limit_is_sharp(c: Candidate, id_a: usize, config: &Config, maps: &Maps)
    ensures
        error_count(c, id_a, config, maps) == error_limit(c.overlap_a, c.overlap_b, config) ==> accepted(
            c,
            id_a,
            config,
            maps,
        ),
        error_count(c, id_a, config, maps) == error_limit(c.overlap_a, c.overlap_b, config) + 1 ==> !accepted(
            c,
            id_a,
            config,
            maps,
        ),
{
}

/// The solution that `c` stands for, with `errors` for its error count.
pub fn solution_from_candidate(c: Candidate, id_a: usize, errors: u32, maps: &Maps, config: &Config) -> (sol:
    Solution)
    requires
        verifiable(c, id_a, config, maps),
    ensures
        sol.identity() == solution_identity(c, id_a, config, maps),
        sol.errors == errors,
        sol.cigar@ == Seq::<char>::empty(),
        config.reversals ==> !for_reversed_string(sol.id_a),
        sol.id_a != sol.id_b,
{
    let a_len = maps.get_length(id_a);
    let b_len = maps.get_length(c.id_b);
    let orientation = relative_orientation(id_a, c.id_b, config.reversals);
    let mut sol = Solution {
        id_a,
        id_b: c.id_b,
        orientation,
        overlap_a: c.overlap_a,
        overlap_b: c.overlap_b,
        overhang_left_a: c.overhang_left_a,
        overhang_right_b: (c.b3(b_len) as i32) - (c.a3(a_len) as i32),
        errors,
        cigar: String::new(),
    };
    assert(sol.identity() == found_identity(c, id_a, config, maps));
    translate_solution_to_external(&mut sol, config, maps);
    sol
}

/// Holds candidate `c` of query `id_a` against the text: counts its
/// errors and, where they are within the limit, gives its solution.
pub fn verify(id_a: usize, c: Candidate, config: &Config, maps: &Maps) -> (r: Option<Solution>)
    requires
        verifiable(c, id_a, config, maps),
    ensures
        r is Some <==> accepted(c, id_a, config, maps),
        r matches Some(sol) ==> {
            &&& sol.identity() == solution_identity(c, id_a, config, maps)
            &&& sol.errors == error_count(c, id_a, config, maps)
            &&& sol.cigar@ == Seq::<char>::empty()
            &&& !config.edit_distance ==> sol.overlap_a == sol.overlap_b
            &&& config.reversals ==> !for_reversed_string(sol.id_a)
            &&& sol.id_a != sol.id_b
        },
{
    let a_len = maps.get_length(id_a);
    assert(a_len - c.spec_a1() - c.overlap_a == 0);
    let a_string = maps.get_string(id_a);
    let b_string = maps.get_string(c.id_b);
    let a_part: &[u8] = slice_subrange(a_string, c.a1(), c.a1() + c.a2());
    let b_part: &[u8] = slice_subrange(b_string, c.b1(), c.b1() + c.b2());
    let errors: u32 = if config.edit_distance {
        modified_levenshtein(a_part, b_part)
    } else {
        assert(a_part@.len() == b_part@.len());
        proof {
            lemma_mismatches_bound(a_part@, b_part@);
        }
        hamming_distance(a_part, b_part) as u32
    };
    if within_limit(errors, c.overlap_a, c.overlap_b, config) {
        Some(solution_from_candidate(c, id_a, errors, maps, config))
    } else {
        None
    }
}

/// The identities of the solutions of the accepted candidates among
/// `candidates`.
pub open spec fn solutions_of(candidates: Set<Candidate>, id_a: usize, config: &Config, maps: &Maps) -> Set<
    Identity,
> {
    Set::new(
        |k: Identity|
            exists|c: Candidate|
                candidates.contains(c) && accepted(c, id_a, config, maps) && #[trigger] solution_identity(
                    c,
                    id_a,
                    config,
                    maps,
                ) == k,
    )
}

/// Whether `sol` is the solution of candidate `c`.
pub open spec fn solves(sol: Solution, c: Candidate, id_a: usize, config: &Config, maps: &Maps) -> bool {
    &&& accepted(c, id_a, config, maps)
    &&& sol.identity() == solution_identity(c, id_a, config, maps)
    &&& sol.errors == error_count(c, id_a, config, maps)
}

/// Whether `sol` is the solution of one of `candidates`.
pub open spec fn solves_one_of(
    sol: Solution,
    candidates: Set<Candidate>,
    id_a: usize,
    config: &Config,
    maps: &Maps,
) -> bool {
    exists|c: Candidate| candidates.contains(c) && solves(sol, c, id_a, config, maps)
}

/// One more candidate adds its solution, if it is accepted, and nothing
/// else.
proof fn lemma_solutions_of_next(items: Seq<Candidate>, i: int, id_a: usize, config: &Config, maps: &Maps)
    requires
        0 <= i < items.len(),
    ensures
        solutions_of(items.take(i + 1).to_set(), id_a, config, maps) == if accepted(items[i], id_a, config, maps) {
            solutions_of(items.take(i).to_set(), id_a, config, maps).insert(
                solution_identity(items[i], id_a, config, maps),
            )
        } else {
            solutions_of(items.take(i).to_set(), id_a, config, maps)
        },
{
    let before = items.take(i).to_set();
    let after = items.take(i + 1).to_set();
    let c_new = items[i];
    let shorter = items.take(i);
    let longer = items.take(i + 1);
    assert(longer[i] == c_new);
    assert(after =~= before.insert(c_new)) by {
        assert forall|x: Candidate| after.contains(x) implies before.insert(c_new).contains(x) by {
            let j = choose|j: int| 0 <= j < longer.len() && longer[j] == x;
            if j < i {
                assert(shorter[j] == x);
            }
        }
        assert forall|x: Candidate| before.insert(c_new).contains(x) implies after.contains(x) by {
            if x != c_new {
                let j = choose|j: int| 0 <= j < shorter.len() && shorter[j] == x;
                assert(longer[j] == x);
            }
        }
    }
    let old_set = solutions_of(before, id_a, config, maps);
    let new_set = solutions_of(after, id_a, config, maps);
    let expected = if accepted(c_new, id_a, config, maps) {
        old_set.insert(solution_identity(c_new, id_a, config, maps))
    } else {
        old_set
    };
    assert forall|k: Identity| new_set.contains(k) implies expected.contains(k) by {
        let c = choose|c: Candidate|
            after.contains(c) && accepted(c, id_a, config, maps) && #[trigger] solution_identity(
                c,
                id_a,
                config,
                maps,
            ) == k;
        if c != c_new {
            assert(before.contains(c));
        }
    }
    assert forall|k: Identity| expected.contains(k) implies new_set.contains(k) by {
        if old_set.contains(k) {
            let c = choose|c: Candidate|
                before.contains(c) && accepted(c, id_a, config, maps) && #[trigger] solution_identity(
                    c,
                    id_a,
                    config,
                    maps,
                ) == k;
            assert(after.contains(c));
        } else {
            assert(after.contains(c_new));
            assert(solution_identity(c_new, id_a, config, maps) == k);
        }
    }
    assert(new_set =~= expected);
}

/// Verifies every candidate of query `id_a` and gathers the solutions of
/// those that are accepted.
pub fn verify_all(id_a: usize, candidates: CandidateSet, config: &Config, maps: &Maps) -> (r: SolutionSet)
    requires
        candidates.wf(),
        forall|c: Candidate| candidates@.contains(c) ==> verifiable(c, id_a, config, maps),
    ensures
        r.wf(),
        r@ == solutions_of(candidates@, id_a, config, maps),
        forall|i: int|
            0 <= i < r.entries().len() ==> solves_one_of(#[trigger] r.entries()[i], candidates@, id_a, config, maps),
        !config.edit_distance ==> forall|i: int|
            0 <= i < r.entries().len() ==> (#[trigger] r.entries()[i]).overlap_a == r.entries()[i].overlap_b,
        config.reversals ==> forall|i: int|
            0 <= i < r.entries().len() ==> !for_reversed_string((#[trigger] r.entries()[i]).id_a),
        forall|i: int| 0 <= i < r.entries().len() ==> (#[trigger] r.entries()[i]).cigar@ == Seq::<char>::empty(),
{
    let mut solution_set = SolutionSet::new();
    let items = candidates.to_vec();
    let mut i: usize = 0;
    assert(items@.take(0).to_set() =~= Set::<Candidate>::empty());
    assert(solutions_of(Set::<Candidate>::empty(), id_a, config, maps) =~= Set::<Identity>::empty());
    while i < items.len()
        invariant
            i <= items@.len(),
            items@.to_set() == candidates@,
            forall|c: Candidate| candidates@.contains(c) ==> verifiable(c, id_a, config, maps),
            solution_set.wf(),
            solution_set@ == solutions_of(items@.take(i as int).to_set(), id_a, config, maps),
            forall|j: int|
                0 <= j < solution_set.entries().len() ==> solves_one_of(
                    #[trigger] solution_set.entries()[j],
                    candidates@,
                    id_a,
                    config,
                    maps,
                ),
            !config.edit_distance ==> forall|j: int|
                0 <= j < solution_set.entries().len() ==> (#[trigger] solution_set.entries()[j]).overlap_a
                    == solution_set.entries()[j].overlap_b,
            config.reversals ==> forall|j: int|
                0 <= j < solution_set.entries().len() ==> !for_reversed_string(
                    (#[trigger] solution_set.entries()[j]).id_a,
                ),
            forall|j: int|
                0 <= j < solution_set.entries().len() ==> (#[trigger] solution_set.entries()[j]).cigar@ == Seq::<
                    char,
                >::empty(),
        decreases items@.len() - i,
    {
        let c = items[i];
        assert(items@.to_set().contains(c));
        proof {
            lemma_solutions_of_next(items@, i as int, id_a, config, maps);
        }
        let ghost before = solution_set.entries();
        match verify(id_a, c, config, maps) {
            Some(solution) => {
                let ghost added = solution;
                assert(solves(added, c, id_a, config, maps));
                solution_set.insert(solution);
                assert forall|j: int| 0 <= j < solution_set.entries().len() implies solves_one_of(
                    #[trigger] solution_set.entries()[j],
                    candidates@,
                    id_a,
                    config,
                    maps,
                ) by {
                    if j < before.len() {
                        assert(solution_set.entries()[j] == before[j]);
                    } else {
                        assert(solution_set.entries()[j] == added);
                    }
                }
            },
            None => {},
        }
        i += 1;
    }
    assert(items@.take(items@.len() as int) =~= items@);
    solution_set
}

/// Where no indels are searched for, the two overlap lengths of a solution
/// are the same.
pub proof fn lemma_hamming_overlaps_agree(c: Candidate, id_a: usize, config: &Config, maps: &Maps)
    requires
        !config.edit_distance,
        verifiable(c, id_a, config, maps),
    ensures
        solution_identity(c, id_a, config, maps).overlap_a == solution_identity(c, id_a, config, maps).overlap_b,
{
}

/// The solutions of a query depend on which candidates there are, and not
/// on the order in which they are verified: two lists of the same
/// candidates give the same solutions.
pub proof fn lemma_solutions_ignore_order(
    one: Seq<Candidate>,
    other: Seq<Candidate>,
    id_a: usize,
    config: &Config,
    maps: &Maps,
)
    requires
        one.to_set() == other.to_set(),
    ensures
        solutions_of(one.to_set(), id_a, config, maps) == solutions_of(other.to_set(), id_a, config, maps),
{
}

/// The solutions of two queries can be gathered in either order.
pub proof fn lemma_gathering_order_is_free(
    first: Set<Candidate>,
    id_first: usize,
    second: Set<Candidate>,
    id_second: usize,
    config: &Config,
    maps: &Maps,
)
    ensures
        solutions_of(first, id_first, config, maps).union(solutions_of(second, id_second, config, maps))
            == solutions_of(second, id_second, config, maps).union(solutions_of(first, id_first, config, maps)),
{
    assert(solutions_of(first, id_first, config, maps).union(solutions_of(second, id_second, config, maps))
        =~= solutions_of(second, id_second, config, maps).union(solutions_of(first, id_first, config, maps)));
}

/// In a solution of a run that indexes reverse complements, the first
/// sequence is never a reverse complement.
pub proof fn lemma_first_sequence_is_upright(c: Candidate, id_a: usize, config: &Config, maps: &Maps)
    requires
        config.reversals,
    ensures
        !for_reversed_string(solution_identity(c, id_a, config, maps).id_a),
{
}

} // verus!
