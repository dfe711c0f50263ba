//! The text store with its identity map, and the configuration of a run.

use bidir_map::BidirMap;
use vstd::prelude::*;
use vstd::slice::slice_subrange;
use vstd::string::StringExecFns;

verus! {

#[verifier::external_type_specification]
#[verifier::external_body]
#[verifier::reject_recursive_types(Kv1)]
#[verifier::reject_recursive_types(Kv2)]
pub struct ExBidirMap<Kv1: PartialEq, Kv2: PartialEq>(BidirMap<Kv1, Kv2>);

/// The pairs that a map holds, in the order in which it keeps them.
pub uninterp spec fn bidir_pairs(m: BidirMap<usize, usize>) -> Seq<(usize, usize)>;

/// `BidirMap::new`: a map that holds no pair.
#[verifier::external_body]
pub(crate) fn bidir_new() -> (m: BidirMap<usize, usize>)
    ensures
        bidir_pairs(m) == Seq::<(usize, usize)>::empty(),
{
    BidirMap::new()
}

/// `BidirMap::insert`, for a pair of which neither half is in the map yet:
/// the pair is appended behind those already held.
#[verifier::external_body]
pub(crate) fn bidir_insert(m: &mut BidirMap<usize, usize>, first: usize, second: usize)
    requires
        forall|i: int|
            0 <= i < bidir_pairs(*old(m)).len() ==> (#[trigger] bidir_pairs(*old(m))[i]).0 != first
                && bidir_pairs(*old(m))[i].1 != second,
    ensures
        bidir_pairs(*final(m)) == bidir_pairs(*old(m)).push((first, second)),
{
    m.insert(first, second);
}

/// `BidirMap::get_by_first`: the second half of the earliest pair whose
/// first half is `first`, if there is such a pair.
#[verifier::external_body]
fn bidir_get_by_first(m: &BidirMap<usize, usize>, first: usize) -> (r: Option<usize>)
    ensures
        match r {
            Some(second) => exists|i: int|
                0 <= i < bidir_pairs(*m).len() && #[trigger] bidir_pairs(*m)[i] == (first, second) && forall|j: int|
                    0 <= j < i ==> (#[trigger] bidir_pairs(*m)[j]).0 != first,
            None => forall|i: int| 0 <= i < bidir_pairs(*m).len() ==> (#[trigger] bidir_pairs(*m)[i]).0 != first,
        },
{
    m.get_by_first(&first).copied()
}

/// `BidirMap::get_by_second`: the first half of the earliest pair whose
/// second half is `second`, if there is such a pair.
#[verifier::external_body]
fn bidir_get_by_second(m: &BidirMap<usize, usize>, second: usize) -> (r: Option<usize>)
    ensures
        match r {
            Some(first) => exists|i: int|
                0 <= i < bidir_pairs(*m).len() && #[trigger] bidir_pairs(*m)[i] == (first, second) && forall|j: int|
                    0 <= j < i ==> (#[trigger] bidir_pairs(*m)[j]).1 != second,
            None => forall|i: int| 0 <= i < bidir_pairs(*m).len() ==> (#[trigger] bidir_pairs(*m)[i]).1 != second,
        },
{
    m.get_by_second(&second).copied()
}

/// `BidirMap::iter`: every pair held, in the order in which the map keeps
/// them.
#[verifier::external_body]
fn bidir_entries(m: &BidirMap<usize, usize>) -> (r: Vec<(usize, usize)>)
    ensures
        r@ == bidir_pairs(*m),
{
    m.iter().map(|(first, second)| (*first, *second)).collect()
}

/// The text that a run of bytes shows as: its characters where it is
/// UTF-8, with a replacement character for whatever is not.
pub uninterp spec fn lossy_text(bytes: Seq<u8>) -> Seq<char>;

/// `String::from_utf8_lossy`: the text that `bytes` shows as.
#[verifier::external_body]
fn text_of(bytes: &[u8]) -> (r: String)
    ensures
        r@ == lossy_text(bytes@),
{
    String::from_utf8_lossy(bytes).into_owned()
}

/// `num` times the one character of `sign`; nothing where `num` is below 1.
fn repeated(sign: &str, num: i32) -> (r: String)
    requires
        sign@.len() == 1,
    ensures
        r@ == Seq::new(
            if num > 0 {
                num as nat
            } else {
                0
            },
            |i: int| sign@[0],
        ),
{
    let mut r = String::new();
    let mut done: i32 = 0;
    while done < num
        invariant
            sign@.len() == 1,
            0 <= done,
            done <= num || done == 0,
            r@ == Seq::new(done as nat, |i: int| sign@[0]),
        decreases num - done,
    {
        r.append(sign);
        done += 1;
        assert(r@ =~= Seq::new(done as nat, |i: int| sign@[0]));
    }
    r
}

/// The text store and the identity map of a run.
///
/// `text` holds every sequence reversed, each behind a `$`, and a closing
/// `#`. `id2index_bdmap` pairs each id with the offset at which its sequence
/// starts in `text`; `id2name_vec` gives each id its display name.
#[derive(Debug)]
pub struct Maps {
    pub text: Vec<u8>,
    pub id2name_vec: Vec<String>,
    pub id2index_bdmap: BidirMap<usize, usize>,
    pub num_ids: usize,
}

impl Maps {
    /// Offset in the text at which sequence `id` starts.
    pub open spec fn start(&self, id: int) -> int {
        bidir_pairs(self.id2index_bdmap)[id].1 as int
    }

    /// Offset in the text just behind sequence `id`.
    pub open spec fn end(&self, id: int) -> int {
        if id == self.num_ids - 1 {
            self.text@.len() - 1
        } else {
            self.start(id + 1) - 1
        }
    }

    /// Sequence `id` as the text holds it.
    pub open spec fn string(&self, id: int) -> Seq<u8> {
        self.text@.subrange(self.start(id), self.end(id))
    }

    /// Ids are dense, each has a name, the first sequence starts at offset
    /// 1, and each later one starts behind the one before it and its `$`.
    pub open spec fn wf(&self) -> bool {
        let pairs = bidir_pairs(self.id2index_bdmap);
        &&& self.text@.len() >= 1
        &&& self.id2name_vec@.len() == self.num_ids
        &&& pairs.len() == self.num_ids
        &&& forall|i: int| 0 <= i < pairs.len() ==> (#[trigger] pairs[i]).0 == i
        &&& forall|i: int| 0 <= i < pairs.len() ==> 1 <= (#[trigger] pairs[i]).1 < self.text@.len()
        &&& forall|i: int, j: int| 0 <= i < j < pairs.len() ==> (#[trigger] pairs[i]).1 < (#[trigger] pairs[j]).1
        &&& pairs.len() > 0 ==> pairs[0].1 == 1
    }

    /// Whether a sequence starts at offset `index` of the text.
    pub open spec fn starts_at(&self, index: int) -> bool {
        exists|id: int| 0 <= id < self.num_ids && self.start(id) == index
    }

    /// The id of the sequence that starts at offset `index`.
    pub open spec fn id_starting_at(&self, index: int) -> int {
        choose|id: int| 0 <= id < self.num_ids && self.start(id) == index
    }

    /// Whether sequence `id` is the last that starts at or before `index`.
    pub open spec fn holds_offset(&self, id: int, index: int) -> bool {
        &&& 0 <= id < self.num_ids
        &&& self.start(id) <= index
        &&& id + 1 < self.num_ids ==> index < self.start(id + 1)
    }

    /// The id of the last sequence that starts at or before `index`.
    pub open spec fn holder(&self, index: int) -> int {
        choose|id: int| self.holds_offset(id, index)
    }

    /// No two sequences start at the same offset.
    pub proof fn lemma_start_decides_id(&self, id: int, index: int)
        requires
            self.wf(),
            0 <= id < self.num_ids,
            self.start(id) == index,
        ensures
            self.starts_at(index),
            self.id_starting_at(index) == id,
    {
        let pairs = bidir_pairs(self.id2index_bdmap);
        let other = self.id_starting_at(index);
        if other < id {
            assert(pairs[other].1 < pairs[id].1);
        } else if id < other {
            assert(pairs[id].1 < pairs[other].1);
        }
    }

    /// Only one sequence is the last that starts at or before an offset.
    pub proof fn lemma_offset_decides_holder(&self, id: int, index: int)
        requires
            self.wf(),
            self.holds_offset(id, index),
        ensures
            self.holder(index) == id,
    {
        let pairs = bidir_pairs(self.id2index_bdmap);
        let other = self.holder(index);
        assert(self.holds_offset(other, index));
        if other < id {
            if other + 1 < id {
                assert(pairs[other + 1].1 < pairs[id].1);
            }
        } else if id < other {
            if id + 1 < other {
                assert(pairs[id + 1].1 < pairs[other].1);
            }
        }
    }

    /// Offset in the text at which sequence `id` starts.
    fn get_start_index(&self, id: usize) -> (r: usize)
        requires
            self.wf(),
            id < self.num_ids,
        ensures
            r == self.start(id as int),
    {
        let ghost pairs = bidir_pairs(self.id2index_bdmap);
        assert(pairs[id as int].0 == id);
        match bidir_get_by_first(&self.id2index_bdmap, id) {
            Some(start) => {
                proof {
                    let i = choose|i: int| 0 <= i < pairs.len() && #[trigger] pairs[i] == (id, start);
                    assert(pairs[i].0 == i);
                }
                start
            },
            None => {
                proof {
                    assert(false);
                }
                0
            },
        }
    }

    fn get_end_index(&self, id: usize) -> (r: usize)
        requires
            self.wf(),
            id < self.num_ids,
        ensures
            r == self.end(id as int),
            self.start(id as int) <= r < self.text@.len(),
    {
        let ghost pairs = bidir_pairs(self.id2index_bdmap);
        assert(1 <= pairs[id as int].1 < self.text@.len());
        if id == self.num_ids - 1 {
            self.text.len() - 1
        } else {
            assert(pairs[id as int].1 < pairs[id + 1].1);
            assert(pairs[id + 1].1 < self.text@.len());
            self.get_start_index(id + 1) - 1
        }
    }

    /// Sequence `id` as the text holds it.
    pub fn get_string(&self, id: usize) -> (r: &[u8])
        requires
            self.wf(),
            id < self.num_ids,
        ensures
            r@ == self.string(id as int),
    {
        let start = self.get_start_index(id);
        let end = self.get_end_index(id);
        slice_subrange(self.text.as_slice(), start, end)
    }

    pub fn get_length(&self, id: usize) -> (r: usize)
        requires
            self.wf(),
            id < self.num_ids,
        ensures
            r == self.string(id as int).len(),
            r == self.end(id as int) - self.start(id as int),
    {
        self.get_end_index(id) - self.get_start_index(id)
    }

    /// The id whose sequence starts at `index`, if there is one.
    pub fn id_for(&self, index: usize) -> (r: Option<usize>)
        requires
            self.wf(),
        ensures
            match r {
                Some(id) => id < self.num_ids && self.start(id as int) == index,
                None => forall|id: int| 0 <= id < self.num_ids ==> self.start(id) != index,
            },
    {
        let ghost pairs = bidir_pairs(self.id2index_bdmap);
        let r = bidir_get_by_second(&self.id2index_bdmap, index);
        proof {
            match r {
                Some(id) => {
                    let i = choose|i: int| 0 <= i < pairs.len() && #[trigger] pairs[i] == (id, index);
                    assert(pairs[i].0 == i);
                },
                None => {
                    assert forall|id: int| 0 <= id < self.num_ids implies self.start(id) != index by {
                        assert(pairs[id].1 != index);
                    }
                },
            }
        }
        r
    }

    /// The sequence that holds offset `index` of the text, as its id and
    /// the offset at which it starts: of the sequences that start at or
    /// before `index`, the last. Where there is none, `(0, 1)`.
    pub fn find_occurrence_containing(&self, index: usize) -> (r: (usize, usize))
        requires
            self.wf(),
        ensures
            index == 0 || self.num_ids == 0 ==> r == (0usize, 1usize),
            index >= 1 && self.num_ids > 0 ==> {
                &&& r.0 < self.num_ids
                &&& r.1 == self.start(r.0 as int)
                &&& r.1 <= index
                &&& r.0 + 1 < self.num_ids ==> index < self.start(r.0 + 1)
            },
    {
        let entries = bidir_entries(&self.id2index_bdmap);
        let ghost pairs = bidir_pairs(self.id2index_bdmap);
        let mut best: (usize, usize) = (0, 1);
        let mut k: usize = 0;
        while k < entries.len()
            invariant
                self.wf(),
                entries@ == pairs,
                pairs == bidir_pairs(self.id2index_bdmap),
                k <= entries@.len(),
                index == 0 || k == 0 ==> best == (0usize, 1usize),
                index >= 1 && k > 0 ==> {
                    &&& best.0 < k
                    &&& best.1 == pairs[best.0 as int].1
                    &&& best.1 <= index
                    &&& best.0 + 1 < k ==> index < pairs[best.0 + 1].1
                },
            decreases entries@.len() - k,
        {
            let (id, ind) = entries[k];
            assert(pairs[k as int].0 == k);
            assert(1 <= pairs[k as int].1);
            if k > 0 {
                assert(pairs[k as int - 1].1 < pairs[k as int].1);
                assert(pairs[best.0 as int].1 <= pairs[k as int - 1].1) by {
                    if best.0 < k - 1 {
                        assert(pairs[best.0 as int].1 < pairs[k as int - 1].1);
                    }
                }
            }
            if ind <= index && ind > best.1 {
                best = (id, ind);
            }
            k += 1;
        }
        best
    }

    /// `num` spaces.
    pub fn spaces(&self, num: i32) -> (r: String)
        ensures
            r@ == Seq::new(
                if num > 0 {
                    num as nat
                } else {
                    0
                },
                |i: int| ' ',
            ),
    {
        proof {
            reveal_strlit(" ");
        }
        repeated(" ", num)
    }

    /// `num` tildes.
    pub fn tildes(&self, num: i32) -> (r: String)
        ensures
            r@ == Seq::new(
                if num > 0 {
                    num as nat
                } else {
                    0
                },
                |i: int| '~',
            ),
    {
        proof {
            reveal_strlit("~");
        }
        repeated("~", num)
    }

    /// Sequence `id`, as the text holds it, for reading.
    pub fn formatted(&self, id: usize) -> (r: String)
        requires
            self.wf(),
            id < self.num_ids,
        ensures
            r@ == lossy_text(self.string(id as int)),
    {
        text_of(self.get_string(id))
    }

    pub fn get_name_for(&self, id: usize) -> (r: &str)
        requires
            id < self.id2name_vec@.len(),
        ensures
            r@ == self.id2name_vec@[id as int]@,
    {
        self.id2name_vec[id].as_str()
    }
}

/// The tolerated share of errors in an overlap, as the fraction
/// `num / den`.
#[derive(Debug, Clone, Copy, PartialEq, Eq, Structural)]
pub struct ErrorRate {
    pub num: u32,
    pub den: u32,
}

impl ErrorRate {
    /// The rate is a fraction of at least 0 and less than 1.
    pub open spec fn wf(&self) -> bool {
        0 <= self.num < self.den
    }

    /// `floor(rate * len)`: the errors that a length of `len` may hold.
    pub open spec fn allowed(&self, len: nat) -> nat {
        (len * self.num / (self.den as int)) as nat
    }

    /// `ceil(len * (1 - rate))`: the shortest length that `len` can stand
    /// against.
    pub open spec fn shrunk(&self, len: nat) -> nat {
        ((len * (self.den - self.num) + self.den - 1) / (self.den as int)) as nat
    }

    /// `floor(len / (1 - rate))`: the longest length that `len` can stand
    /// against.
    pub open spec fn stretched(&self, len: nat) -> nat {
        (len * self.den / (self.den - self.num)) as nat
    }

    pub fn max_errors(&self, len: usize) -> (r: usize)
        requires
            self.wf(),
        ensures
            r == self.allowed(len as nat),
            r <= len,
    {
        let product: u128 = mul_wide(len, self.num);
        let r: u128 = product / (self.den as u128);
        proof {
            lemma_scaled_quotient(len as int, self.num as int, self.den as int);
        }
        r as usize
    }

    pub fn min_counterpart(&self, len: usize) -> (r: usize)
        requires
            self.wf(),
        ensures
            r == self.shrunk(len as nat),
            r <= len,
    {
        let rest: u32 = self.den - self.num;
        let product: u128 = mul_wide(len, rest);
        let r: u128 = (product + (self.den as u128 - 1)) / (self.den as u128);
        proof {
            lemma_rounded_up_quotient(len as int, rest as int, self.den as int);
        }
        r as usize
    }

    /// The longest length that `len` can stand against, or `cap` where
    /// that is less.
    pub fn max_counterpart(&self, len: usize, cap: usize) -> (r: usize)
        requires
            self.wf(),
        ensures
            r == if self.stretched(len as nat) <= cap {
                self.stretched(len as nat)
            } else {
                cap as nat
            },
    {
        let rest: u32 = self.den - self.num;
        let product: u128 = mul_wide(len, self.den);
        let q: u128 = product / (rest as u128);
        if q <= cap as u128 {
            q as usize
        } else {
            cap
        }
    }
}

/// The product of a length and a 32-bit factor, which 128 bits always hold.
fn mul_wide(len: usize, factor: u32) -> (r: u128)
    ensures
        r == len * factor,
        r <= 0xffff_ffff_ffff_ffff * 0xffff_ffff,
{
    assert(len * factor <= 0xffff_ffff_ffff_ffff * 0xffff_ffff) by (nonlinear_arith)
        requires
            0 <= len <= 0xffff_ffff_ffff_ffff,
            0 <= factor <= 0xffff_ffff,
    ;
    (len as u128) * (factor as u128)
}

proof fn lemma_scaled_quotient(len: int, num: int, den: int)
    by (nonlinear_arith)
    requires
        0 <= len,
        0 <= num < den,
    ensures
        0 <= len * num / den <= len,
{
}

proof fn lemma_rounded_up_quotient(len: int, rest: int, den: int)
    by (nonlinear_arith)
    requires
        0 <= len,
        0 < rest <= den,
    ensures
        0 <= (len * rest + den - 1) / den <= len,
{
}

/// The byte `$`, which stands before every sequence in the text.
pub const SENTINEL: u8 = 36;

/// The byte `#`, which closes the text.
pub const TERMINATOR: u8 = 35;

pub const BASE_A: u8 = 65;

pub const BASE_C: u8 = 67;

pub const BASE_G: u8 = 71;

pub const BASE_T: u8 = 84;

/// The byte `N`, which stands for a base that could not be read.
pub const BASE_N: u8 = 78;

/// What a run is asked to do.
#[derive(Debug)]
pub struct Config {
    pub input: String,
    pub output: String,
    pub err_rate: ErrorRate,
    pub thresh: i32,
    pub worker_threads: usize,
    pub sorted: bool,
    pub reversals: bool,
    pub inclusions: bool,
    pub edit_distance: bool,
    pub verbose: bool,
    pub time: bool,
    pub print: bool,
    pub n_alphabet: bool,
}

impl Config {
    /// The symbols that a sequence may hold: `ACGT`, and `N` where
    /// ambiguous bases are kept.
    pub open spec fn spec_alphabet(&self) -> Seq<u8> {
        if self.n_alphabet {
            seq![BASE_A, BASE_C, BASE_G, BASE_N, BASE_T]
        } else {
            seq![BASE_A, BASE_C, BASE_G, BASE_T]
        }
    }

    pub fn alphabet(&self) -> (r: Vec<u8>)
        ensures
            r@ == self.spec_alphabet(),
    {
        let mut r: Vec<u8> = Vec::new();
        r.push(BASE_A);
        r.push(BASE_C);
        r.push(BASE_G);
        if self.n_alphabet {
            r.push(BASE_N);
        }
        r.push(BASE_T);
        assert(r@ =~= self.spec_alphabet());
        r
    }
}

} // verus!
