use seq_overlap::filter::{FilterPolicy, SingleBlock};
use seq_overlap::index::{RankIndex, TextIndex};
use seq_overlap::prepare::{complement_u8, only_bases, prepare, read_and_prepare, PrepareError};
use seq_overlap::search::{get_block_id_lookup, smaller, LastOperation};
use seq_overlap::structs::run_config::{Config, ErrorRate};
use seq_overlap::structs::solutions::{Candidate, CandidateSet, Orientation, Solution, SolutionSet};
use seq_overlap::useful::{companion_id, for_reversed_string, relative_orientation};
use seq_overlap::verification::{error_at_pos_in_both, modified_levenshtein, verify, within_limit};

fn plain_config() -> Config {
    Config {
        input: String::new(),
        output: String::new(),
        err_rate: ErrorRate { num: 1, den: 10 },
        thresh: 1,
        worker_threads: 1,
        sorted: false,
        reversals: false,
        inclusions: false,
        edit_distance: false,
        verbose: false,
        time: false,
        print: false,
        n_alphabet: false,
    }
}

fn solution(errors: u32, cigar: &str) -> Solution {
    Solution {
        id_a: 0,
        id_b: 1,
        orientation: Orientation::Normal,
        overhang_left_a: 3,
        overhang_right_b: 4,
        overlap_a: 5,
        overlap_b: 6,
        errors,
        cigar: cigar.to_string(),
    }
}

#[test]
fn complement_pairs_the_bases() {
    assert_eq!(complement_u8(b'A'), b'T');
    assert_eq!(complement_u8(b'C'), b'G');
    assert_eq!(complement_u8(b'G'), b'C');
    assert_eq!(complement_u8(b'T'), b'A');
    assert_eq!(complement_u8(b'N'), b'N');
}

#[test]
fn end_error_counts_differences_and_unread_bases() {
    assert_eq!(error_at_pos_in_both(b"AC", b"AG", true), 0);
    assert_eq!(error_at_pos_in_both(b"AC", b"AG", false), 1);
    assert_eq!(error_at_pos_in_both(b"NC", b"NC", true), 1);
    assert_eq!(error_at_pos_in_both(b"AN", b"CN", false), 1);
    assert_eq!(error_at_pos_in_both(b"ACG", b"TG", false), 0);
}

#[test]
fn short_stretches_are_scored_symbol_by_symbol() {
    assert_eq!(modified_levenshtein(b"", b""), 0);
    assert_eq!(modified_levenshtein(b"A", b"A"), 0);
    assert_eq!(modified_levenshtein(b"A", b"C"), 1);
    assert_eq!(modified_levenshtein(b"N", b"N"), 1);
    assert_eq!(modified_levenshtein(b"AC", b"AC"), 0);
    assert_eq!(modified_levenshtein(b"AC", b"GT"), 2);
}

#[test]
fn short_stretches_of_unequal_length_have_no_distance() {
    assert_eq!(modified_levenshtein(b"A", b"AC"), u32::MAX);
    assert_eq!(modified_levenshtein(b"", b"ACG"), u32::MAX);
    assert_eq!(modified_levenshtein(b"ACGT", b"A"), u32::MAX);
}

#[test]
fn longer_stretches_are_scored_by_edit_distance_between_forced_ends() {
    assert_eq!(modified_levenshtein(b"ACGT", b"ACGT"), 0);
    assert_eq!(modified_levenshtein(b"ACGT", b"AGT"), 1);
    assert_eq!(modified_levenshtein(b"ACGT", b"ACCGT"), 1);
    assert_eq!(modified_levenshtein(b"ACGT", b"TCGA"), 2);
    assert_eq!(modified_levenshtein(b"NCGN", b"NCGN"), 2);
    assert_eq!(modified_levenshtein(b"AAAAAAT", b"ACCCCCT"), 5);
    assert_eq!(modified_levenshtein(b"ACGTACGT", b"AGTACGGT"), 2);
}

#[test]
fn error_rate_rounds_as_its_names_say() {
    let rate = ErrorRate { num: 1, den: 10 };
    assert_eq!(rate.max_errors(9), 0);
    assert_eq!(rate.max_errors(10), 1);
    assert_eq!(rate.max_errors(29), 2);
    assert_eq!(rate.min_counterpart(10), 9);
    assert_eq!(rate.min_counterpart(11), 10);
    assert_eq!(rate.min_counterpart(0), 0);
    assert_eq!(rate.max_counterpart(9, 100), 10);
    assert_eq!(rate.max_counterpart(18, 100), 20);
    assert_eq!(rate.max_counterpart(18, 19), 19);
    assert_eq!(rate.max_counterpart(usize::MAX, usize::MAX), usize::MAX);
}

#[test]
fn limit_is_kept_exactly() {
    let mut cfg = plain_config();
    cfg.err_rate = ErrorRate { num: 1, den: 6 };
    assert!(within_limit(1, 6, 6, &cfg));
    assert!(!within_limit(2, 6, 6, &cfg));
    assert!(within_limit(0, 5, 5, &cfg));
    assert!(!within_limit(1, 5, 5, &cfg));
    assert!(within_limit(2, 5, 12, &cfg));
    assert!(!within_limit(3, 12, 5, &cfg));
}

#[test]
fn alphabet_follows_the_flag() {
    let mut cfg = plain_config();
    assert_eq!(cfg.alphabet(), b"ACGT".to_vec());
    cfg.n_alphabet = true;
    assert_eq!(cfg.alphabet(), b"ACGNT".to_vec());
}

#[test]
fn lookup_numbers_blocks_from_the_end_of_the_query() {
    assert_eq!(get_block_id_lookup(&vec![2, 3, 1]), vec![2, 1, 1, 1, 0, 0]);
    assert_eq!(get_block_id_lookup(&vec![]), Vec::<i32>::new());
    assert_eq!(get_block_id_lookup(&vec![0, 2, -1]), vec![1, 1]);
}

#[test]
fn smaller_lowers_the_bases() {
    assert_eq!(smaller(b'A'), 'a');
    assert_eq!(smaller(b'C'), 'c');
    assert_eq!(smaller(b'G'), 'g');
    assert_eq!(smaller(b'T'), 't');
    assert_eq!(smaller(b'N'), 'n');
    assert_eq!(smaller(b'$'), '?');
}

#[test]
fn steps_allow_what_may_follow_them() {
    assert!(!LastOperation::Initial.allows_deletion());
    assert!(!LastOperation::Initial.allows_insertion());
    assert!(LastOperation::Initial.allows_candidates());
    assert!(LastOperation::Substitution.allows_deletion());
    assert!(LastOperation::Substitution.allows_insertion());
    assert!(LastOperation::Substitution.allows_candidates());
    assert!(LastOperation::Insertion.allows_insertion());
    assert!(!LastOperation::Insertion.allows_deletion());
    assert!(!LastOperation::Insertion.allows_candidates());
    assert!(LastOperation::Deletion.allows_deletion());
    assert!(!LastOperation::Deletion.allows_insertion());
    assert!(!LastOperation::Deletion.allows_candidates());
}

#[test]
fn ids_pair_with_their_reverse_complements() {
    assert_eq!(companion_id(4, true), 5);
    assert_eq!(companion_id(5, true), 4);
    assert_eq!(companion_id(5, false), 5);
    assert!(for_reversed_string(3));
    assert!(!for_reversed_string(2));
    assert_eq!(relative_orientation(0, 2, true), Orientation::Normal);
    assert_eq!(relative_orientation(0, 3, true), Orientation::Reversed);
    assert_eq!(relative_orientation(0, 3, false), Orientation::Normal);
}

#[test]
fn single_block_policy_takes_the_whole_query() {
    let rate = ErrorRate { num: 1, den: 10 };
    assert_eq!(SingleBlock.get_block_lengths(12, &rate, 3), vec![12]);
    assert_eq!(SingleBlock.filter_func(0, 1), i32::MAX);
    assert!(SingleBlock.candidate_condition(3, 0, 3, 0));
    assert!(!SingleBlock.candidate_condition(2, 1, 3, 0));
}

#[test]
fn candidate_set_holds_each_candidate_once() {
    let c = Candidate { id_b: 1, overlap_a: 2, overlap_b: 3, overhang_left_a: -4 };
    let d = Candidate { id_b: 1, overlap_a: 2, overlap_b: 4, overhang_left_a: -4 };
    let mut set = CandidateSet::new();
    assert!(set.is_empty());
    assert!(set.insert(c));
    assert!(!set.insert(c));
    assert!(set.insert(d));
    assert_eq!(set.len(), 2);
    assert!(set.contains(&c));
    assert_eq!(set.to_vec(), vec![c, d]);
}

#[test]
fn solution_set_ignores_errors_and_summary() {
    let mut set = SolutionSet::new();
    assert!(set.insert(solution(1, "5M")));
    assert!(!set.insert(solution(2, "4M1X")));
    assert_eq!(set.len(), 1);
    assert_eq!(set.get(0).errors, 1);
    assert!(set.contains(&solution(7, "")));
    let mut other = solution(1, "5M");
    other.overlap_b = 7;
    assert!(!set.contains(&other));
    assert!(set.insert(other));
    assert_eq!(set.len(), 2);
}

#[test]
fn solutions_are_equal_by_geometry() {
    assert!(solution(1, "a") == solution(2, "b"));
    let mut other = solution(1, "a");
    other.orientation = Orientation::Reversed;
    assert!(solution(1, "a") != other);
}

#[test]
fn flips_turn_the_geometry() {
    let mut s = solution(1, "x");
    s.v_flip();
    assert_eq!((s.id_a, s.id_b, s.overhang_left_a, s.overhang_right_b, s.overlap_a, s.overlap_b), (1, 0, -3, -4, 6, 5));
    let mut s = solution(1, "x");
    s.mirror_horizontally();
    assert_eq!((s.id_a, s.id_b, s.overhang_left_a, s.overhang_right_b, s.overlap_a, s.overlap_b), (0, 1, -4, -3, 5, 6));
    let mut s = solution(1, "x");
    s.h_flip(true);
    assert_eq!((s.id_a, s.id_b, s.overhang_left_a, s.overhang_right_b, s.overlap_a, s.overlap_b), (1, 0, -4, -3, 5, 6));
    assert_eq!(s.errors, 1);
    assert_eq!(s.cigar, "x");
}

#[test]
fn candidate_parts_follow_the_overhang() {
    let c = Candidate { id_b: 1, overlap_a: 3, overlap_b: 4, overhang_left_a: 2 };
    assert_eq!((c.a1(), c.a2(), c.a3(5), c.b1(), c.b2(), c.b3(9)), (2, 3, 0, 0, 4, 5));
    let c = Candidate { id_b: 1, overlap_a: 3, overlap_b: 4, overhang_left_a: -2 };
    assert_eq!((c.a1(), c.a2(), c.a3(3), c.b1(), c.b2(), c.b3(9)), (0, 3, 0, 2, 4, 3));
}

#[test]
fn text_store_holds_reversed_sequences_behind_sentinels() {
    let cfg = plain_config();
    let maps = prepare(&vec![("one".to_string(), b"ACNGT".to_vec()), ("two".to_string(), b"GG".to_vec())], &cfg);
    assert_eq!(maps.text, b"$TGCA$GG#".to_vec());
    assert_eq!(maps.num_ids, 2);
    assert_eq!(maps.get_string(0), b"TGCA");
    assert_eq!(maps.get_string(1), b"GG");
    assert_eq!(maps.get_length(0), 4);
    assert_eq!(maps.get_length(1), 2);
    assert_eq!(maps.get_name_for(1), "two");
    assert_eq!(maps.id_for(1), Some(0));
    assert_eq!(maps.id_for(6), Some(1));
    assert_eq!(maps.id_for(5), None);
    assert_eq!(maps.find_occurrence_containing(0), (0, 1));
    assert_eq!(maps.find_occurrence_containing(3), (0, 1));
    assert_eq!(maps.find_occurrence_containing(5), (0, 1));
    assert_eq!(maps.find_occurrence_containing(6), (1, 6));
    assert_eq!(maps.find_occurrence_containing(40), (1, 6));
}

#[test]
fn text_store_keeps_unread_bases_and_adds_reverse_complements_when_asked() {
    let mut cfg = plain_config();
    cfg.n_alphabet = true;
    cfg.reversals = true;
    let maps = prepare(&vec![("one".to_string(), b"ACNGT".to_vec())], &cfg);
    assert_eq!(maps.text, b"$TGNCA$TGNCA#".to_vec());
    let maps = prepare(&vec![("one".to_string(), b"AACG".to_vec()), ("two".to_string(), b"T".to_vec())], &cfg);
    assert_eq!(maps.text, b"$GCAA$TTGC$T$A#".to_vec());
    assert_eq!(maps.num_ids, 4);
    assert_eq!(maps.get_name_for(0), "one");
    assert_eq!(maps.get_name_for(1), "one");
    assert_eq!(maps.get_name_for(3), "two");
    assert_eq!(maps.get_string(1), b"TTGC");
}

#[test]
fn text_store_of_no_records_is_the_closing_sign() {
    let mut cfg = plain_config();
    let maps = prepare(&vec![], &cfg);
    assert_eq!(maps.text, b"#".to_vec());
    assert_eq!(maps.num_ids, 0);
    cfg.reversals = true;
    assert_eq!(prepare(&vec![], &cfg).text, b"#".to_vec());
    assert_eq!(read_and_prepare(b"", &cfg).unwrap().text, b"#".to_vec());
}

#[test]
fn fasta_text_becomes_a_text_store() {
    let cfg = plain_config();
    let maps = read_and_prepare(b">first some words\nACGT\nAC\n>second\nTTN\n", &cfg).unwrap();
    assert_eq!(maps.text, b"$CATGCA$TT#".to_vec());
    assert_eq!(maps.get_name_for(0), "first");
    assert_eq!(maps.get_name_for(1), "second");
}

#[test]
fn text_that_is_not_fasta_is_refused() {
    let cfg = plain_config();
    assert_eq!(read_and_prepare(b"ACGT\n", &cfg).unwrap_err(), PrepareError::Malformed);
}

#[test]
fn symbol_without_complement_is_refused_where_reversals_are_asked_for() {
    let mut cfg = plain_config();
    assert!(read_and_prepare(b">a\nACXT\n", &cfg).is_ok());
    cfg.reversals = true;
    assert_eq!(read_and_prepare(b">a\nACXT\n", &cfg).unwrap_err(), PrepareError::BadSymbol);
    assert!(only_bases(&vec![("a".to_string(), b"ACGTN".to_vec())]));
    assert!(!only_bases(&vec![("a".to_string(), b"ACGTN".to_vec()), ("b".to_string(), b"AC-".to_vec())]));
}

#[test]
fn index_counts_over_its_transform() {
    let index = TextIndex::new(b"CA$CAA".to_vec(), vec![5, 4, 3, 2, 1, 0], b"$AC".to_vec()).unwrap();
    assert_eq!(index.len(), 6);
    assert!(index.supports(b'A'));
    assert!(!index.supports(b'G'));
    assert_eq!(index.less(b'$'), 0);
    assert_eq!(index.less(b'A'), 1);
    assert_eq!(index.less(b'C'), 4);
    assert_eq!(index.occ(0, b'A'), 0);
    assert_eq!(index.occ(1, b'A'), 1);
    assert_eq!(index.occ(5, b'A'), 3);
    assert_eq!(index.occ(5, b'C'), 2);
    assert_eq!(index.occ(2, b'$'), 1);
}

#[test]
fn index_needs_symbols_that_cover_its_transform() {
    assert!(TextIndex::new(b"CA$".to_vec(), vec![2, 1, 0], vec![]).is_none());
    assert!(TextIndex::new(b"CA$".to_vec(), vec![2, 1, 0], b"$A".to_vec()).is_none());
    assert!(TextIndex::new(b"CA$".to_vec(), vec![2, 1], b"$AC".to_vec()).is_none());
    assert!(TextIndex::new(b"CA$".to_vec(), vec![2, 1, 0], b"$AC".to_vec()).is_some());
}

#[test]
fn verify_counts_mismatches_of_the_overlapping_stretches() {
    let mut cfg = plain_config();
    cfg.err_rate = ErrorRate { num: 1, den: 3 };
    let maps = prepare(&vec![("a".to_string(), b"AAACCC".to_vec()), ("b".to_string(), b"CGCTTT".to_vec())], &cfg);
    let c = Candidate { id_b: 0, overlap_a: 3, overlap_b: 3, overhang_left_a: 3 };
    let s = verify(1, c, &cfg, &maps).unwrap();
    assert_eq!((s.id_a, s.id_b, s.overhang_left_a, s.overhang_right_b, s.errors), (0, 1, 3, 3, 1));
    cfg.err_rate = ErrorRate { num: 1, den: 4 };
    assert!(verify(1, c, &cfg, &maps).is_none());
}

#[test]
fn verify_takes_a_candidate_of_a_smaller_id_where_indels_are_searched_for() {
    let mut cfg = plain_config();
    cfg.edit_distance = true;
    cfg.err_rate = ErrorRate { num: 0, den: 1 };
    let maps = prepare(&vec![("a".to_string(), b"AAACCC".to_vec()), ("b".to_string(), b"CCCTTT".to_vec())], &cfg);
    let c = Candidate { id_b: 0, overlap_a: 3, overlap_b: 3, overhang_left_a: 3 };
    let s = verify(1, c, &cfg, &maps).unwrap();
    assert_eq!((s.id_a, s.id_b, s.overhang_left_a, s.overhang_right_b, s.errors), (0, 1, 3, 3, 0));
    assert_eq!(s.cigar, "");
}
