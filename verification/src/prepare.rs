//! The making of the text store and its identity map from the records of a
//! FASTA text.

use crate::structs::run_config::{
    bidir_insert, bidir_new, bidir_pairs, Config, Maps, BASE_A, BASE_C, BASE_G, BASE_N, BASE_T, SENTINEL,
    TERMINATOR,
};
use bidir_map::BidirMap;
use bio::io::fasta;
use vstd::prelude::*;

verus! {

#[verifier::external_type_specification]
#[verifier::external_body]
pub struct ExIoError(std::io::Error);

/// The records of a FASTA text, each with the bytes of its name and with
/// its sequence; none where the text is not FASTA.
pub uninterp spec fn fasta_records(input: Seq<u8>) -> Option<Seq<(Seq<char>, Seq<u8>)>>;

/// What a list of records holds: each name as characters, each sequence as
/// bytes.
pub open spec fn records_view(records: Seq<(String, Vec<u8>)>) -> Seq<(Seq<char>, Seq<u8>)> {
    Seq::new(records.len(), |i: int| (records[i].0@, records[i].1@))
}

/// `Reader::records` of `bio::io::fasta` on a reader over `input`: the
/// records of the text in their order, each as its id and its sequence, or
/// the error of the first record that cannot be read.
#[verifier::external_body]
fn read_fasta(input: &[u8]) -> (r: Result<Vec<(String, Vec<u8>)>, std::io::Error>)
    ensures
        match r {
            Ok(records) => fasta_records(input@) == Some(records_view(records@)),
            Err(_) => fasta_records(input@) is None,
        },
{
    let mut records = Vec::new();
    for record in fasta::Reader::new(input).records() {
        let record = record?;
        records.push((record.id().to_owned(), record.seq().to_vec()));
    }
    Ok(records)
}

/// Whether `x` is a base or the sign of an unread base.
pub open spec fn is_base(x: u8) -> bool {
    x == BASE_A || x == BASE_C || x == BASE_G || x == BASE_T || x == BASE_N
}

/// The base that pairs with `x`.
pub open spec fn complement(x: u8) -> u8 {
    if x == BASE_A {
        BASE_T
    } else if x == BASE_C {
        BASE_G
    } else if x == BASE_G {
        BASE_C
    } else if x == BASE_T {
        BASE_A
    } else {
        x
    }
}

pub fn complement_u8(x: u8) -> (r: u8)
    requires
        is_base(x),
    ensures
        r == complement(x),
{
    if x == BASE_A {
        BASE_T
    } else if x == BASE_C {
        BASE_G
    } else if x == BASE_G {
        BASE_C
    } else if x == BASE_T {
        BASE_A
    } else {
        BASE_N
    }
}

/// `s` without the signs of unread bases.
pub open spec fn without_unread(s: Seq<u8>) -> Seq<u8>
    decreases s.len(),
{
    if s.len() == 0 {
        s
    } else if s.last() == BASE_N {
        without_unread(s.drop_last())
    } else {
        without_unread(s.drop_last()).push(s.last())
    }
}

/// What is kept of a sequence: all of it, or all but the unread bases.
pub open spec fn kept(s: Seq<u8>, config: &Config) -> Seq<u8> {
    if config.n_alphabet {
        s
    } else {
        without_unread(s)
    }
}

/// `s` with each base replaced by the base that pairs with it.
pub open spec fn complemented(s: Seq<u8>) -> Seq<u8> {
    Seq::new(s.len(), |i: int| complement(s[i]))
}

/// The record that `id` belongs to: where reverse complements are
/// indexed, each record takes two ids.
pub open spec fn record_of(config: &Config, id: int) -> int {
    if config.reversals {
        id / 2
    } else {
        id
    }
}

/// How many ids `n` records take.
pub open spec fn ids_of(config: &Config, n: int) -> int {
    if config.reversals {
        2 * n
    } else {
        n
    }
}

/// What the text holds for `id`: the sequence of its record reversed, or,
/// for the reverse complement, complemented.
pub open spec fn stored_string(records: Seq<(Seq<char>, Seq<u8>)>, config: &Config, id: int) -> Seq<u8> {
    let sequence = kept(records[record_of(config, id)].1, config);
    if config.reversals && id % 2 == 1 {
        complemented(sequence)
    } else {
        sequence.reverse()
    }
}

/// The name of `id`: that of its record.
pub open spec fn stored_name(records: Seq<(Seq<char>, Seq<u8>)>, config: &Config, id: int) -> Seq<char> {
    records[record_of(config, id)].0
}

/// Whether `maps` is the text store of `records`: it holds an id for each
/// record, and one more for its reverse complement where those are
/// indexed; each sequence stands in the text as `stored_string` says,
/// behind a `$`; and a `#` closes the text, which without records is the
/// `#` alone.
pub open spec fn holds_records(maps: &Maps, records: Seq<(Seq<char>, Seq<u8>)>, config: &Config) -> bool {
    &&& maps.wf()
    &&& maps.num_ids == ids_of(config, records.len() as int)
    &&& maps.text@.last() == TERMINATOR
    &&& maps.num_ids == 0 ==> maps.text@.len() == 1
    &&& forall|id: int|
        0 <= id < maps.num_ids ==> {
            &&& maps.text@[maps.start(id) - 1] == SENTINEL
            &&& #[trigger] maps.string(id) == stored_string(records, config, id)
            &&& maps.id2name_vec@[id]@ == stored_name(records, config, id)
        }
}

/// Whether every symbol of every record is a base or the sign of an unread
/// base.
pub open spec fn all_bases(records: Seq<(Seq<char>, Seq<u8>)>) -> bool {
    forall|i: int, j: int| 0 <= i < records.len() && 0 <= j < records[i].1.len() ==> is_base(#[trigger] records[i].1[j])
}

fn keep(sequence: &Vec<u8>, config: &Config) -> (r: Vec<u8>)
    ensures
        r@ == kept(sequence@, config),
{
    let mut r: Vec<u8> = Vec::new();
    let mut i: usize = 0;
    while i < sequence.len()
        invariant
            i <= sequence@.len(),
            r@ == kept(sequence@.take(i as int), config),
        decreases sequence@.len() - i,
    {
        assert(sequence@.take(i + 1).drop_last() =~= sequence@.take(i as int));
        if config.n_alphabet || sequence[i] != BASE_N {
            r.push(sequence[i]);
        }
        assert(config.n_alphabet ==> r@ =~= sequence@.take(i + 1));
        i += 1;
    }
    assert(sequence@.take(sequence@.len() as int) =~= sequence@);
    r
}

fn reversed(s: &Vec<u8>) -> (r: Vec<u8>)
    ensures
        r@ == s@.reverse(),
{
    let mut r: Vec<u8> = Vec::new();
    let mut i: usize = s.len();
    while i > 0
        invariant
            i <= s@.len(),
            r@.len() == s@.len() - i,
            forall|j: int| 0 <= j < r@.len() ==> r@[j] == s@[s@.len() - 1 - j],
        decreases i,
    {
        i -= 1;
        r.push(s[i]);
    }
    assert(r@ =~= s@.reverse());
    r
}

fn complement_all(s: &Vec<u8>) -> (r: Vec<u8>)
    requires
        forall|j: int| 0 <= j < s@.len() ==> is_base(s@[j]),
    ensures
        r@ == complemented(s@),
{
    let mut r: Vec<u8> = Vec::new();
    let mut i: usize = 0;
    while i < s.len()
        invariant
            i <= s@.len(),
            forall|j: int| 0 <= j < s@.len() ==> is_base(s@[j]),
            r@.len() == i,
            forall|j: int| 0 <= j < i ==> r@[j] == complement(s@[j]),
        decreases s@.len() - i,
    {
        r.push(complement_u8(s[i]));
        i += 1;
    }
    assert(r@ =~= complemented(s@));
    r
}

/// Where the sequence of `id` ends in a text that is still growing: before
/// the `$` of the next sequence, or at the end of the text.
pub open spec fn bound(text: Seq<u8>, pairs: Seq<(usize, usize)>, id: int) -> int {
    if id + 1 < pairs.len() {
        pairs[id + 1].1 - 1
    } else {
        text.len() as int
    }
}

/// Whether a text without its closing `#` holds `strings`, each behind a
/// `$`, at the offsets that `pairs` gives, under the names `labels`.
pub open spec fn partly_built(
    text: Seq<u8>,
    pairs: Seq<(usize, usize)>,
    names: Seq<String>,
    strings: Seq<Seq<u8>>,
    labels: Seq<Seq<char>>,
) -> bool {
    &&& pairs.len() == strings.len()
    &&& names.len() == strings.len()
    &&& labels.len() == strings.len()
    &&& forall|i: int| 0 <= i < pairs.len() ==> (#[trigger] pairs[i]).0 == i
    &&& forall|i: int| 0 <= i < pairs.len() ==> 1 <= (#[trigger] pairs[i]).1 <= text.len()
    &&& forall|i: int, j: int| 0 <= i < j < pairs.len() ==> (#[trigger] pairs[i]).1 < (#[trigger] pairs[j]).1
    &&& pairs.len() > 0 ==> pairs[0].1 == 1
    &&& pairs.len() == 0 ==> text.len() == 0
    &&& forall|i: int| 0 <= i < pairs.len() ==> text[(#[trigger] pairs[i]).1 - 1] == SENTINEL
    &&& forall|i: int|
        0 <= i < pairs.len() ==> text.subrange(pairs[i].1 as int, bound(text, pairs, i)) == #[trigger] strings[i]
    &&& forall|i: int| 0 <= i < names.len() ==> (#[trigger] names[i])@ == labels[i]
}

/// Appends one sequence to a text that is still growing, behind a `$`, and
/// gives it the next id.
fn append_sequence(
    text: &mut Vec<u8>,
    names: &mut Vec<String>,
    map: &mut BidirMap<usize, usize>,
    name: String,
    stored: &Vec<u8>,
    Ghost(strings): Ghost<Seq<Seq<u8>>>,
    Ghost(labels): Ghost<Seq<Seq<char>>>,
)
    requires
        partly_built(old(text)@, bidir_pairs(*old(map)), old(names)@, strings, labels),
    ensures
        partly_built(
            final(text)@,
            bidir_pairs(*final(map)),
            final(names)@,
            strings.push(stored@),
            labels.push(name@),
        ),
{
    let ghost old_text = text@;
    let ghost old_pairs = bidir_pairs(*map);
    let id = names.len();
    text.push(SENTINEL);
    let index = text.len();
    proof {
        assert forall|i: int| 0 <= i < old_pairs.len() implies (#[trigger] old_pairs[i]).0 != id && old_pairs[i].1
            != index by {
            assert(old_pairs[i].0 == i);
            assert(old_pairs[i].1 <= old_text.len());
        }
    }
    bidir_insert(map, id, index);
    text.extend_from_slice(stored.as_slice());
    names.push(name);
    proof {
        let new_text = text@;
        let new_pairs = bidir_pairs(*map);
        assert(new_text =~= old_text.push(SENTINEL) + stored@);
        assert forall|i: int| 0 <= i < new_pairs.len() implies new_text.subrange(
            new_pairs[i].1 as int,
            bound(new_text, new_pairs, i),
        ) == #[trigger] strings.push(stored@)[i] by {
            if i < old_pairs.len() {
                assert(new_pairs[i] == old_pairs[i]);
                assert(1 <= old_pairs[i].1 <= old_text.len());
                if i + 1 < old_pairs.len() {
                    assert(new_pairs[i + 1] == old_pairs[i + 1]);
                    assert(old_pairs[i].1 < old_pairs[i + 1].1);
                    assert(old_pairs[i + 1].1 <= old_text.len());
                }
                assert(bound(new_text, new_pairs, i) == bound(old_text, old_pairs, i));
                assert(new_text.subrange(new_pairs[i].1 as int, bound(new_text, new_pairs, i)) =~= old_text.subrange(
                    old_pairs[i].1 as int,
                    bound(old_text, old_pairs, i),
                ));
                assert(strings.push(stored@)[i] == strings[i]);
            } else {
                assert(new_text.subrange(index as int, new_text.len() as int) =~= stored@);
            }
        }
        assert forall|i: int| 0 <= i < new_pairs.len() implies new_text[(#[trigger] new_pairs[i]).1 - 1]
            == SENTINEL by {
            if i < old_pairs.len() {
                assert(new_pairs[i] == old_pairs[i]);
                assert(1 <= old_pairs[i].1 <= old_text.len());
            }
        }
        assert forall|i: int, j: int| 0 <= i < j < new_pairs.len() implies (#[trigger] new_pairs[i]).1 < (
        #[trigger] new_pairs[j]).1 by {
            assert(new_pairs[i] == old_pairs[i]);
            assert(old_pairs[i].1 <= old_text.len());
            if j < old_pairs.len() {
                assert(new_pairs[j] == old_pairs[j]);
            }
        }
        assert forall|i: int| 0 <= i < new_pairs.len() implies 1 <= (#[trigger] new_pairs[i]).1 <= new_text.len() by {
            if i < old_pairs.len() {
                assert(new_pairs[i] == old_pairs[i]);
            }
        }
        assert forall|i: int| 0 <= i < new_pairs.len() implies (#[trigger] new_pairs[i]).0 == i by {
            if i < old_pairs.len() {
                assert(new_pairs[i] == old_pairs[i]);
            }
        }
        if old_pairs.len() > 0 {
            assert(new_pairs[0] == old_pairs[0]);
        }
    }
}

/// What is kept of a sequence of bases are bases.
proof fn lemma_kept_bases(s: Seq<u8>, config: &Config)
    requires
        forall|j: int| 0 <= j < s.len() ==> is_base(s[j]),
    ensures
        forall|j: int| 0 <= j < kept(s, config).len() ==> is_base(#[trigger] kept(s, config)[j]),
{
    lemma_without_unread_bases(s);
}

proof fn lemma_without_unread_bases(s: Seq<u8>)
    requires
        forall|j: int| 0 <= j < s.len() ==> is_base(s[j]),
    ensures
        forall|j: int| 0 <= j < without_unread(s).len() ==> is_base(#[trigger] without_unread(s)[j]),
    decreases s.len(),
{
    if s.len() > 0 {
        lemma_without_unread_bases(s.drop_last());
        let shorter = without_unread(s.drop_last());
        assert forall|j: int| 0 <= j < without_unread(s).len() implies is_base(
            #[trigger] without_unread(s)[j],
        ) by {
            if j < shorter.len() {
                assert(without_unread(s)[j] == shorter[j]);
            } else {
                assert(without_unread(s)[j] == s[s.len() - 1]);
            }
        }
    }
}

/// The text store of `records`: every sequence reversed and behind a `$`,
/// each followed by its reverse complement where those are indexed, and a
/// closing `#`.
pub fn prepare(records: &Vec<(String, Vec<u8>)>, config: &Config) -> (maps: Maps)
    requires
        config.reversals ==> all_bases(records_view(records@)),
    ensures
        holds_records(&maps, records_view(records@), config),
{
    let ghost view = records_view(records@);
    let mut text: Vec<u8> = Vec::new();
    let mut id2name_vec: Vec<String> = Vec::new();
    let mut id2index_bdmap = bidir_new();
    let ghost mut strings: Seq<Seq<u8>> = Seq::empty();
    let ghost mut labels: Seq<Seq<char>> = Seq::empty();
    let mut i: usize = 0;
    while i < records.len()
        invariant
            i <= records@.len(),
            view == records_view(records@),
            config.reversals ==> all_bases(view),
            partly_built(text@, bidir_pairs(id2index_bdmap), id2name_vec@, strings, labels),
            strings.len() == ids_of(config, i as int),
            forall|id: int|
                0 <= id < strings.len() ==> #[trigger] strings[id] == stored_string(view, config, id)
                    && labels[id] == stored_name(view, config, id),
        decreases records@.len() - i,
    {
        let record = &records[i];
        assert(view[i as int] == (record.0@, record.1@));
        let sequence = keep(&record.1, config);
        let stored = reversed(&sequence);
        let ghost id = strings.len() as int;
        append_sequence(
            &mut text,
            &mut id2name_vec,
            &mut id2index_bdmap,
            record.0.clone(),
            &stored,
            Ghost(strings),
            Ghost(labels),
        );
        proof {
            strings = strings.push(stored@);
            labels = labels.push(record.0@);
            assert(record_of(config, id) == i);
        }
        if config.reversals {
            proof {
                assert forall|j: int| 0 <= j < record.1@.len() implies is_base(record.1@[j]) by {
                    assert(is_base(view[i as int].1[j]));
                }
                lemma_kept_bases(record.1@, config);
            }
            let partner = complement_all(&sequence);
            append_sequence(
                &mut text,
                &mut id2name_vec,
                &mut id2index_bdmap,
                record.0.clone(),
                &partner,
                Ghost(strings),
                Ghost(labels),
            );
            proof {
                strings = strings.push(partner@);
                labels = labels.push(record.0@);
                assert(record_of(config, id + 1) == i);
            }
        }
        i += 1;
    }
    let ghost open_text = text@;
    text.push(TERMINATOR);
    let num_ids = id2name_vec.len();
    let maps = Maps { text, id2name_vec, id2index_bdmap, num_ids };
    proof {
        let pairs = bidir_pairs(maps.id2index_bdmap);
        assert(maps.text@ =~= open_text.push(TERMINATOR));
        assert(maps.text@.last() == TERMINATOR);
        assert(maps.num_ids == ids_of(config, view.len() as int));
        assert(maps.wf()) by {
            assert forall|i: int| 0 <= i < pairs.len() implies 1 <= (#[trigger] pairs[i]).1 < maps.text@.len() by {
                assert(1 <= pairs[i].1 <= open_text.len());
            }
        }
        assert forall|id: int| 0 <= id < maps.num_ids implies {
            &&& maps.text@[maps.start(id) - 1] == SENTINEL
            &&& #[trigger] maps.string(id) == stored_string(view, config, id)
            &&& maps.id2name_vec@[id]@ == stored_name(view, config, id)
        } by {
            assert(1 <= pairs[id].1 <= open_text.len());
            if id + 1 < pairs.len() {
                assert(pairs[id].1 < pairs[id + 1].1);
                assert(pairs[id + 1].1 <= open_text.len());
            }
            assert(maps.end(id) == bound(open_text, pairs, id));
            assert(maps.string(id) =~= open_text.subrange(pairs[id].1 as int, bound(open_text, pairs, id)));
            assert(strings[id] == stored_string(view, config, id));
        }
    }
    maps
}

/// Why no text store could be made.
#[derive(Debug, Clone, Copy, PartialEq, Eq, Structural)]
pub enum PrepareError {
    /// The input is not a FASTA text.
    Malformed,
    /// Reverse complements are asked for, and a sequence holds a symbol
    /// that has none.
    BadSymbol,
}

/// Whether every symbol of every record is a base or the sign of an unread
/// base.
pub fn only_bases(records: &Vec<(String, Vec<u8>)>) -> (r: bool)
    ensures
        r == all_bases(records_view(records@)),
{
    let ghost view = records_view(records@);
    let mut i: usize = 0;
    while i < records.len()
        invariant
            i <= records@.len(),
            view == records_view(records@),
            forall|k: int, j: int| 0 <= k < i && 0 <= j < view[k].1.len() ==> is_base(#[trigger] view[k].1[j]),
        decreases records@.len() - i,
    {
        let sequence = &records[i].1;
        assert(view[i as int].1 == sequence@);
        let mut j: usize = 0;
        while j < sequence.len()
            invariant
                j <= sequence@.len(),
                i < view.len(),
                view == records_view(records@),
                view[i as int].1 == sequence@,
                forall|m: int| 0 <= m < j ==> is_base(sequence@[m]),
            decreases sequence@.len() - j,
        {
            let x = sequence[j];
            if !(x == BASE_A || x == BASE_C || x == BASE_G || x == BASE_T || x == BASE_N) {
                assert(!is_base(view[i as int].1[j as int]));
                return false;
            }
            j += 1;
        }
        i += 1;
    }
    true
}

/// The text store of the records of the FASTA text `input`.
pub fn read_and_prepare(input: &[u8], config: &Config) -> (r: Result<Maps, PrepareError>)
    ensures
        match fasta_records(input@) {
            None => r matches Err(e) && e == PrepareError::Malformed,
            Some(records) => if config.reversals && !all_bases(records) {
                r matches Err(e) && e == PrepareError::BadSymbol
            } else {
                r matches Ok(maps) && holds_records(&maps, records, config)
            },
        },
{
    let records = match read_fasta(input) {
        Ok(records) => records,
        Err(_) => {
            return Err(PrepareError::Malformed);
        },
    };
    if config.reversals && !only_bases(&records) {
        return Err(PrepareError::BadSymbol);
    }
    Ok(prepare(&records, config))
}

} // verus!
