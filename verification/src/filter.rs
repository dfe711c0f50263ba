//! The policy that cuts a query into blocks and says, as the search gets on,
//! how many errors it may have spent and whether a match may be reported.

use crate::structs::run_config::ErrorRate;
use vstd::prelude::*;

verus! {

/// The sum of the block lengths in `lengths`.
pub open spec fn total_length(lengths: Seq<i32>) -> int
    decreases lengths.len(),
{
    if lengths.len() == 0 {
        0
    } else {
        total_length(lengths.drop_last()) + lengths.last()
    }
}

/// Whether `lengths` cut a query of `patt_len` symbols into blocks: none is
/// below zero, together they are as long as the query, and their number
/// fits 32 bits.
pub open spec fn cuts_query(lengths: Seq<i32>, patt_len: int) -> bool {
    &&& lengths.len() <= i32::MAX
    &&& forall|i: int| 0 <= i < lengths.len() ==> lengths[i] >= 0
    &&& total_length(lengths) == patt_len
}

/// A filter policy. The search asks it for the blocks of a query and then,
/// at every step, for the errors permitted so far and for leave to report.
pub trait FilterPolicy {
    /// The blocks that a query of `patt_len` symbols is cut into, from the
    /// block at the query's end to the one at its start.
    spec fn block_lengths(&self, patt_len: int, err_rate: ErrorRate, thresh: int) -> Seq<i32>;

    /// The errors tolerated once `completed_blocks` of the `patt_blocks`
    /// blocks lie behind the search.
    spec fn permitted_errors(&self, completed_blocks: int, patt_blocks: int) -> int;

    /// Whether a match of `matched_len` symbols with `errors` errors may be
    /// reported after `completed_blocks` blocks.
    spec fn eligible(&self, matched_len: int, completed_blocks: int, thresh: int, errors: int) -> bool;

    fn get_block_lengths(&self, patt_len: i32, err_rate: &ErrorRate, thresh: i32) -> (r: Vec<i32>)
        requires
            0 <= patt_len,
            err_rate.wf(),
        ensures
            r@ == self.block_lengths(patt_len as int, *err_rate, thresh as int),
    ;

    fn filter_func(&self, completed_blocks: i32, patt_blocks: i32) -> (r: i32)
        ensures
            r == self.permitted_errors(completed_blocks as int, patt_blocks as int),
    ;

    fn candidate_condition(&self, matched_len: i32, completed_blocks: i32, thresh: i32, errors: i32) -> (r: bool)
        ensures
            r == self.eligible(matched_len as int, completed_blocks as int, thresh as int, errors as int),
    ;
}

/// The policy without filters: the whole query is one block, the bound on
/// errors never binds, and a match may be reported as soon as it is as long
/// as the threshold asks.
#[derive(Debug, Clone, Copy)]
pub struct SingleBlock;

impl FilterPolicy for SingleBlock {
    open spec fn block_lengths(&self, patt_len: int, err_rate: ErrorRate, thresh: int) -> Seq<i32> {
        seq![patt_len as i32]
    }

    open spec fn permitted_errors(&self, completed_blocks: int, patt_blocks: int) -> int {
        i32::MAX as int
    }

    open spec fn eligible(&self, matched_len: int, completed_blocks: int, thresh: int, errors: int) -> bool {
        matched_len >= thresh
    }

    fn get_block_lengths(&self, patt_len: i32, err_rate: &ErrorRate, thresh: i32) -> (r: Vec<i32>) {
        let mut r: Vec<i32> = Vec::new();
        r.push(patt_len);
        proof {
            assert(r@ =~= seq![patt_len]);
        }
        r
    }

    fn filter_func(&self, completed_blocks: i32, patt_blocks: i32) -> (r: i32) {
        i32::MAX
    }

    fn candidate_condition(&self, matched_len: i32, completed_blocks: i32, thresh: i32, errors: i32) -> (r: bool) {
        matched_len >= thresh
    }
}

/// The single block of `SingleBlock` cuts every query.
pub proof fn lemma_single_block_cuts(patt_len: i32, err_rate: ErrorRate, thresh: int)
    requires
        0 <= patt_len,
    ensures
        cuts_query(SingleBlock.block_lengths(patt_len as int, err_rate, thresh), patt_len as int),
{
    let lengths = seq![patt_len];
    assert(lengths.drop_last() =~= Seq::<i32>::empty());
    assert(total_length(lengths.drop_last()) == 0);
}

/// A policy made of three functions: one that cuts a query into blocks,
/// one that gives the permitted errors, and one that gives leave to report.
pub struct Plugged<
    B: Fn(i32, ErrorRate, i32) -> Vec<i32>,
    F: Fn(i32, i32) -> i32,
    C: Fn(i32, i32, i32, i32) -> bool,
> {
    blocks: B,
    permitted: F,
    condition: C,
}

/// Whether `f` takes every query and always cuts the same query into the
/// same blocks.
pub open spec fn cuts_alike<B: Fn(i32, ErrorRate, i32) -> Vec<i32>>(f: B) -> bool {
    &&& forall|a: (i32, ErrorRate, i32)| call_requires(f, a)
    &&& forall|a: (i32, ErrorRate, i32), r1: Vec<i32>, r2: Vec<i32>|
        call_ensures(f, a, r1) && call_ensures(f, a, r2) ==> r1@ == r2@
}

/// Whether `f` takes every state of progress and always permits the same
/// errors at the same state.
pub open spec fn permits_alike<F: Fn(i32, i32) -> i32>(f: F) -> bool {
    &&& forall|a: (i32, i32)| call_requires(f, a)
    &&& forall|a: (i32, i32), r1: i32, r2: i32| call_ensures(f, a, r1) && call_ensures(f, a, r2) ==> r1 == r2
}

/// Whether `f` takes every match and always decides the same on the same
/// match.
pub open spec fn decides_alike<C: Fn(i32, i32, i32, i32) -> bool>(f: C) -> bool {
    &&& forall|a: (i32, i32, i32, i32)| call_requires(f, a)
    &&& forall|a: (i32, i32, i32, i32), r1: bool, r2: bool|
        call_ensures(f, a, r1) && call_ensures(f, a, r2) ==> r1 == r2
}

impl<
    B: Fn(i32, ErrorRate, i32) -> Vec<i32>,
    F: Fn(i32, i32) -> i32,
    C: Fn(i32, i32, i32, i32) -> bool,
> Plugged<B, F, C> {
    #[verifier::type_invariant]
    spec fn inv(&self) -> bool {
        &&& cuts_alike(self.blocks)
        &&& permits_alike(self.permitted)
        &&& decides_alike(self.condition)
    }

    /// The function that cuts a query into blocks.
    pub closed spec fn blocks(&self) -> B {
        self.blocks
    }

    /// The function that gives the permitted errors.
    pub closed spec fn permitted(&self) -> F {
        self.permitted
    }

    /// The function that gives leave to report.
    pub closed spec fn condition(&self) -> C {
        self.condition
    }

    /// The policy that asks `blocks` for the blocks of a query, `permitted`
    /// for the permitted errors and `condition` for leave to report. Each of
    /// them has to answer the same whenever it is asked the same.
    pub fn new(blocks: B, permitted: F, condition: C) -> (r: Self)
        requires
            cuts_alike(blocks),
            permits_alike(permitted),
            decides_alike(condition),
        ensures
            r.blocks() == blocks,
            r.permitted() == permitted,
            r.condition() == condition,
    {
        Plugged { blocks, permitted, condition }
    }
}

impl<
    B: Fn(i32, ErrorRate, i32) -> Vec<i32>,
    F: Fn(i32, i32) -> i32,
    C: Fn(i32, i32, i32, i32) -> bool,
> FilterPolicy for Plugged<B, F, C> {
    open spec fn block_lengths(&self, patt_len: int, err_rate: ErrorRate, thresh: int) -> Seq<i32> {
        (choose|r: Vec<i32>|
            #[trigger] call_ensures(self.blocks(), (patt_len as i32, err_rate, thresh as i32), r))@
    }

    open spec fn permitted_errors(&self, completed_blocks: int, patt_blocks: int) -> int {
        (choose|r: i32|
            #[trigger] call_ensures(self.permitted(), (completed_blocks as i32, patt_blocks as i32), r)) as int
    }

    open spec fn eligible(&self, matched_len: int, completed_blocks: int, thresh: int, errors: int) -> bool {
        choose|r: bool|
            #[trigger] call_ensures(
                self.condition(),
                (matched_len as i32, completed_blocks as i32, thresh as i32, errors as i32),
                r,
            )
    }

    fn get_block_lengths(&self, patt_len: i32, err_rate: &ErrorRate, thresh: i32) -> (r: Vec<i32>) {
        proof {
            use_type_invariant(self);
        }
        (self.blocks)(patt_len, *err_rate, thresh)
    }

    fn filter_func(&self, completed_blocks: i32, patt_blocks: i32) -> (r: i32) {
        proof {
            use_type_invariant(self);
        }
        (self.permitted)(completed_blocks, patt_blocks)
    }

    fn candidate_condition(&self, matched_len: i32, completed_blocks: i32, thresh: i32, errors: i32) -> (r: bool) {
        proof {
            use_type_invariant(self);
        }
        (self.condition)(matched_len, completed_blocks, thresh, errors)
    }
}

} // verus!
