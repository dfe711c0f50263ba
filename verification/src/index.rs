//! What the search asks of a full-text index, and an index that answers it
//! from a Burrows-Wheeler transform and its suffix array.

use bio::alphabets::Alphabet;
use bio::data_structures::bwt::{less, Occ};
use bio::data_structures::fmindex::Interval;
use vstd::prelude::*;

verus! {

#[verifier::external_type_specification]
pub struct ExInterval(Interval);

#[verifier::external_type_specification]
#[verifier::external_body]
pub struct ExOcc(Occ);

/// How often `a` occurs in `s`.
pub open spec fn count_of(s: Seq<u8>, a: u8) -> nat
    decreases s.len(),
{
    if s.len() == 0 {
        0
    } else {
        count_of(s.drop_last(), a) + if s.last() == a {
            1nat
        } else {
            0nat
        }
    }
}

/// How many bytes of `s` are less than `c`.
pub open spec fn count_below(s: Seq<u8>, c: int) -> nat
    decreases s.len(),
{
    if s.len() == 0 {
        0
    } else {
        count_below(s.drop_last(), c) + if s.last() < c {
            1nat
        } else {
            0nat
        }
    }
}

/// The greatest byte of `s`; -1 where `s` is empty.
pub open spec fn max_of(s: Seq<u8>) -> int
    decreases s.len(),
{
    if s.len() == 0 {
        -1
    } else if s.last() > max_of(s.drop_last()) {
        s.last() as int
    } else {
        max_of(s.drop_last())
    }
}

/// The rows of an occurrence table: for each byte value the counts that
/// the table has stored of it, from the first on.
pub uninterp spec fn occ_rows(o: Occ) -> Seq<Seq<usize>>;

/// The distance between two counts that an occurrence table has stored.
pub uninterp spec fn occ_sampling(o: Occ) -> u32;

/// Every `SAMPLING`-th count of an occurrence table is stored.
pub const SAMPLING: u32 = 8;

/// Whether `rows` hold, for symbol `a`, every `SAMPLING`-th count over
/// `bwt`: one count for each of the positions 0, 8, 16 and so on, which is
/// how often `a` occurs up to and with that position.
pub open spec fn samples(rows: Seq<Seq<usize>>, bwt: Seq<u8>, a: u8) -> bool {
    &&& (a as int) < rows.len()
    &&& rows[a as int].len() == (bwt.len() + 7) / 8
    &&& forall|i: int| 0 <= i < rows[a as int].len() ==> rows[a as int][i] == count_of(bwt.take(8 * i + 1), a)
}

/// What a table with the rows `rows` answers for position `r` of `bwt` and
/// symbol `a`: the count stored at or before `r`, and how often `a` occurs
/// behind the position of that count, up to and with `r`.
pub open spec fn sampled_count(rows: Seq<Seq<usize>>, bwt: Seq<u8>, r: int, a: u8) -> int {
    rows[a as int][r / 8] + count_of(bwt.subrange(8 * (r / 8) + 1, r + 1), a)
}

/// `less` of `bio::data_structures::bwt`, over the alphabet made of
/// `symbols`: a table with one entry for each byte value up to the
/// greatest symbol plus one, each entry the number of bytes of `bwt` that
/// are less than that value.
#[verifier::external_body]
fn less_table(bwt: &Vec<u8>, symbols: &Vec<u8>) -> (r: Vec<usize>)
    requires
        symbols@.len() > 0,
        forall|i: int| 0 <= i < bwt@.len() ==> bwt@[i] <= max_of(symbols@),
    ensures
        r@.len() == max_of(symbols@) + 2,
        forall|c: int| 0 <= c < r@.len() ==> r@[c] == count_below(bwt@, c),
{
    less(bwt, &Alphabet::new(symbols))
}

/// `Occ::new`, over the alphabet made of `symbols` and with every
/// `SAMPLING`-th count stored: a table with a row for each byte value up to
/// the greatest symbol, of which the row of each symbol holds every
/// `SAMPLING`-th count over `bwt`.
#[verifier::external_body]
fn occ_new(bwt: &Vec<u8>, symbols: &Vec<u8>) -> (r: Occ)
    requires
        symbols@.len() > 0,
        forall|i: int| 0 <= i < bwt@.len() ==> bwt@[i] <= max_of(symbols@),
    ensures
        occ_sampling(r) == SAMPLING,
        occ_rows(r).len() == max_of(symbols@) + 1,
        forall|i: int| 0 <= i < symbols@.len() ==> samples(occ_rows(r), bwt@, #[trigger] symbols@[i]),
{
    Occ::new(bwt, SAMPLING, &Alphabet::new(symbols))
}

/// `Occ::get`, for a table that has stored every `SAMPLING`-th count and
/// has a count for `a` at or before position `r`: that count, and how often
/// `a` occurs in `bwt` behind its position, up to and with `r`.
#[verifier::external_body]
fn occ_get(occ: &Occ, bwt: &Vec<u8>, r: usize, a: u8) -> (n: usize)
    requires
        occ_sampling(*occ) == SAMPLING,
        r < bwt@.len(),
        (a as int) < occ_rows(*occ).len(),
        r / 8 < occ_rows(*occ)[a as int].len(),
        sampled_count(occ_rows(*occ), bwt@, r as int, a) <= usize::MAX,
    ensures
        n == sampled_count(occ_rows(*occ), bwt@, r as int, a),
{
    occ.get(bwt, r, a)
}

/// `Interval::occ`: the entries of the suffix array at the ranks from
/// `lower` up to, and without, `upper`.
#[verifier::external_body]
fn interval_positions(interval: &Interval, sa: &Vec<usize>) -> (r: Vec<usize>)
    requires
        interval.lower <= interval.upper <= sa@.len(),
    ensures
        r@ == sa@.subrange(interval.lower as int, interval.upper as int),
{
    interval.occ(sa)
}

/// What the search asks of a full-text index: counts over the ranks of the
/// indexed text, and the text position behind each rank.
pub trait RankIndex {
    /// The number of ranks, which is the length of the indexed text.
    spec fn rows(&self) -> nat;

    /// Whether the index answers for symbol `a`.
    spec fn serves(&self, a: u8) -> bool;

    /// What `less` answers for `a`.
    spec fn less_of(&self, a: u8) -> nat;

    /// What `occ` answers for rank `r` and symbol `a`.
    spec fn occ_of(&self, r: int, a: u8) -> nat;

    /// The text position behind `rank`.
    spec fn position_of(&self, rank: int) -> usize;

    fn len(&self) -> (n: usize)
        ensures
            n == self.rows(),
    ;

    fn supports(&self, a: u8) -> (r: bool)
        ensures
            r == self.serves(a),
    ;

    /// The number of text positions whose symbol sorts before `a`.
    fn less(&self, a: u8) -> (n: usize)
        requires
            self.serves(a),
        ensures
            n == self.less_of(a),
    ;

    /// How often `a` occurs among the first `r + 1` ranks.
    fn occ(&self, r: usize, a: u8) -> (n: usize)
        requires
            r < self.rows(),
            self.serves(a),
        ensures
            n == self.occ_of(r as int, a),
    ;

    /// The text positions behind the ranks from `interval.lower` up to, and
    /// without, `interval.upper`.
    fn positions(&self, interval: &Interval) -> (r: Vec<usize>)
        requires
            interval.lower <= interval.upper <= self.rows(),
        ensures
            r@.len() == interval.upper - interval.lower,
            forall|i: int| 0 <= i < r@.len() ==> r@[i] == self.position_of(interval.lower + i),
    ;
}

/// An index over a Burrows-Wheeler transform and the suffix array that it
/// was made from, which answers for a chosen set of symbols.
pub struct TextIndex {
    bwt: Vec<u8>,
    less: Vec<usize>,
    occ: Occ,
    sa: Vec<usize>,
    symbols: Vec<u8>,
}

/// The greatest byte of `s`, if `s` holds any.
fn greatest(s: &Vec<u8>) -> (r: Option<u8>)
    ensures
        match r {
            Some(top) => s@.len() > 0 && top == max_of(s@),
            None => s@.len() == 0,
        },
{
    if s.len() == 0 {
        return None;
    }
    let mut top: u8 = s[0];
    let mut i: usize = 1;
    assert(max_of(s@.take(1)) == s@[0]) by {
        assert(s@.take(1).drop_last() =~= Seq::<u8>::empty());
        assert(max_of(s@.take(1).drop_last()) == -1);
    }
    while i < s.len()
        invariant
            1 <= i <= s@.len(),
            top == max_of(s@.take(i as int)),
        decreases s@.len() - i,
    {
        assert(s@.take(i + 1).drop_last() =~= s@.take(i as int));
        if s[i] > top {
            top = s[i];
        }
        i += 1;
    }
    assert(s@.take(s@.len() as int) =~= s@);
    Some(top)
}

/// Whether no byte of `s` is greater than `top`.
fn all_at_most(s: &Vec<u8>, top: u8) -> (r: bool)
    ensures
        r == forall|i: int| 0 <= i < s@.len() ==> s@[i] <= top,
{
    let mut i: usize = 0;
    while i < s.len()
        invariant
            i <= s@.len(),
            forall|j: int| 0 <= j < i ==> s@[j] <= top,
        decreases s@.len() - i,
    {
        if s[i] > top {
            return false;
        }
        i += 1;
    }
    true
}

/// Whether `a` occurs in `s`.
fn holds(s: &Vec<u8>, a: u8) -> (r: bool)
    ensures
        r == s@.contains(a),
{
    let mut i: usize = 0;
    while i < s.len()
        invariant
            i <= s@.len(),
            forall|j: int| 0 <= j < i ==> s@[j] != a,
        decreases s@.len() - i,
    {
        if s[i] == a {
            return true;
        }
        i += 1;
    }
    false
}

/// The bytes below `a` and the bytes that are `a` are together no more than
/// all bytes.
pub proof fn lemma_counts_fit(s: Seq<u8>, a: u8)
    ensures
        count_below(s, a as int) + count_of(s, a) <= s.len(),
    decreases s.len(),
{
    if s.len() > 0 {
        lemma_counts_fit(s.drop_last(), a);
    }
}

/// A symbol occurs in a text no more often than the text is long.
pub proof fn lemma_count_at_most_length(s: Seq<u8>, a: u8)
    ensures
        count_of(s, a) <= s.len(),
    decreases s.len(),
{
    if s.len() > 0 {
        lemma_count_at_most_length(s.drop_last(), a);
    }
}

/// The count over the start of a text is the count over a shorter start
/// and the count over what lies between the two.
pub proof fn lemma_count_splits(s: Seq<u8>, k: int, m: int, a: u8)
    requires
        0 <= k <= m <= s.len(),
    ensures
        count_of(s.take(m), a) == count_of(s.take(k), a) + count_of(s.subrange(k, m), a),
    decreases m - k,
{
    if k < m {
        assert(s.take(m).drop_last() =~= s.take(m - 1));
        assert(s.subrange(k, m).drop_last() =~= s.subrange(k, m - 1));
        lemma_count_splits(s, k, m - 1, a);
    } else {
        assert(s.subrange(k, m) =~= Seq::<u8>::empty());
    }
}

/// A symbol occurs in the start of a text no more often than in all of it.
pub proof fn lemma_count_grows(s: Seq<u8>, k: int, a: u8)
    requires
        0 <= k <= s.len(),
    ensures
        count_of(s.take(k), a) <= count_of(s, a),
    decreases s.len() - k,
{
    if k < s.len() {
        assert(s.take(k + 1).drop_last() =~= s.take(k));
        lemma_count_grows(s, k + 1, a);
    } else {
        assert(s.take(k) =~= s);
    }
}

/// No byte of `s` is greater than its greatest.
pub proof fn lemma_max_of_bounds(s: Seq<u8>, i: int)
    requires
        0 <= i < s.len(),
    ensures
        s[i] <= max_of(s) <= 255,
    decreases s.len(),
{
    if s.len() == 1 {
        assert(max_of(s.drop_last()) == -1);
    } else if i < s.len() - 1 {
        lemma_max_of_bounds(s.drop_last(), i);
    } else {
        lemma_max_of_bounds(s.drop_last(), 0);
    }
}

impl TextIndex {
    #[verifier::type_invariant]
    spec fn inv(&self) -> bool {
        &&& self.sa@.len() == self.bwt@.len()
        &&& occ_sampling(self.occ) == SAMPLING
        &&& forall|i: int|
            0 <= i < self.symbols@.len() ==> samples(occ_rows(self.occ), self.bwt@, #[trigger] self.symbols@[i])
                && self.symbols@[i] < self.less@.len()
        &&& forall|c: int| 0 <= c < self.less@.len() ==> self.less@[c] == count_below(self.bwt@, c)
    }

    /// The transform that the index counts over.
    pub closed spec fn bwt(&self) -> Seq<u8> {
        self.bwt@
    }

    /// The suffix array that the index resolves ranks with.
    pub closed spec fn suffix_array(&self) -> Seq<usize> {
        self.sa@
    }

    /// The symbols that the index answers for.
    pub closed spec fn symbols(&self) -> Seq<u8> {
        self.symbols@
    }

    /// The table that `less` is answered from.
    pub closed spec fn less_table(&self) -> Seq<usize> {
        self.less@
    }

    /// An index over the transform `bwt` of a text and the suffix array
    /// `sa` of that text, which answers for `symbols`. There is none where
    /// `symbols` is empty, where `bwt` holds a byte greater than every
    /// symbol, or where the two arrays differ in length.
    pub fn new(bwt: Vec<u8>, sa: Vec<usize>, symbols: Vec<u8>) -> (r: Option<TextIndex>)
        ensures
            r is Some <==> {
                &&& symbols@.len() > 0
                &&& sa@.len() == bwt@.len()
                &&& forall|i: int| 0 <= i < bwt@.len() ==> bwt@[i] <= max_of(symbols@)
            },
            r matches Some(index) ==> {
                &&& index.bwt() == bwt@
                &&& index.suffix_array() == sa@
                &&& index.symbols() == symbols@
                &&& index.less_table().len() == max_of(symbols@) + 2
                &&& forall|c: int|
                    0 <= c < index.less_table().len() ==> index.less_table()[c] == count_below(bwt@, c)
            },
    {
        let top = match greatest(&symbols) {
            Some(top) => top,
            None => {
                return None;
            },
        };
        if sa.len() != bwt.len() || !all_at_most(&bwt, top) {
            return None;
        }
        let less = less_table(&bwt, &symbols);
        let occ = occ_new(&bwt, &symbols);
        proof {
            assert forall|i: int| 0 <= i < symbols@.len() implies #[trigger] symbols@[i] < less@.len() by {
                lemma_max_of_bounds(symbols@, i);
            }
        }
        Some(TextIndex { bwt, less, occ, sa, symbols })
    }
}

impl RankIndex for TextIndex {
    open spec fn rows(&self) -> nat {
        self.bwt().len()
    }

    open spec fn serves(&self, a: u8) -> bool {
        self.symbols().contains(a)
    }

    open spec fn less_of(&self, a: u8) -> nat {
        self.less_table()[a as int] as nat
    }

    open spec fn occ_of(&self, r: int, a: u8) -> nat {
        count_of(self.bwt().take(r + 1), a)
    }

    open spec fn position_of(&self, rank: int) -> usize {
        self.suffix_array()[rank]
    }

    fn len(&self) -> (n: usize) {
        self.bwt.len()
    }

    fn supports(&self, a: u8) -> (r: bool) {
        holds(&self.symbols, a)
    }

    fn less(&self, a: u8) -> (n: usize) {
        proof {
            use_type_invariant(self);
            let i = choose|i: int| 0 <= i < self.symbols@.len() && self.symbols@[i] == a;
            assert(self.symbols@[i] < self.less@.len());
        }
        self.less[a as usize]
    }

    /// How often `a` occurs among the first `r + 1` bytes of the transform.
    /// Together with the bytes that sort before `a` these are never more
    /// than the index has ranks.
    fn occ(&self, r: usize, a: u8) -> (n: usize)
        ensures
            self.less_of(a) + n <= self.rows(),
    {
        let rows = self.bwt.len();
        proof {
            use_type_invariant(self);
            let i = choose|i: int| 0 <= i < self.symbols@.len() && self.symbols@[i] == a;
            assert(samples(occ_rows(self.occ), self.bwt@, self.symbols@[i]));
            assert(self.symbols@[i] < self.less@.len());
            let stored = r as int / 8;
            assert(8 * stored <= r < self.bwt@.len());
            assert(stored < (self.bwt@.len() + 7) / 8);
            assert(occ_rows(self.occ)[a as int][stored] == count_of(self.bwt@.take(8 * stored + 1), a));
            lemma_count_splits(self.bwt@, 8 * stored + 1, r + 1, a);
            lemma_count_at_most_length(self.bwt@.take(r + 1), a);
            assert(sampled_count(occ_rows(self.occ), self.bwt@, r as int, a) == count_of(
                self.bwt@.take(r + 1),
                a,
            ));
            assert(self.bwt@.take(r + 1).len() == r + 1 <= rows);
            assert(sampled_count(occ_rows(self.occ), self.bwt@, r as int, a) <= usize::MAX);
            lemma_counts_fit(self.bwt@, a);
            lemma_count_grows(self.bwt@, r + 1, a);
        }
        occ_get(&self.occ, &self.bwt, r, a)
    }

    fn positions(&self, interval: &Interval) -> (r: Vec<usize>) {
        proof {
            use_type_invariant(self);
        }
        interval_positions(interval, &self.sa)
    }
}

} // verus!
