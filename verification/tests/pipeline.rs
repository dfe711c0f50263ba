use bio::data_structures::bwt::bwt;
use bio::data_structures::suffix_array::suffix_array;
use seq_overlap::filter::{Plugged, SingleBlock};
use seq_overlap::index::TextIndex;
use seq_overlap::prepare::prepare;
use seq_overlap::search::{foreign_symbol, GeneratesCandidates, SearchError};
use seq_overlap::structs::run_config::{Config, ErrorRate, Maps};
use seq_overlap::structs::solutions::{Candidate, Orientation, Solution, SolutionSet};
use seq_overlap::verification::verify_all;

fn config(num: u32, den: u32, thresh: i32) -> Config {
    Config {
        input: String::new(),
        output: String::new(),
        err_rate: ErrorRate { num, den },
        thresh,
        worker_threads: 1,
        sorted: false,
        reversals: false,
        inclusions: false,
        edit_distance: false,
        verbose: false,
        time: false,
        print: false,
        n_alphabet: false,
    }
}

fn records(items: &[(&str, &str)]) -> Vec<(String, Vec<u8>)> {
    items.iter().map(|(name, seq)| (name.to_string(), seq.as_bytes().to_vec())).collect()
}

fn index_of(maps: &Maps) -> TextIndex {
    let sa = suffix_array(&maps.text);
    let transform = bwt(&maps.text, &sa);
    TextIndex::new(transform, sa, b"#$ACGNT".to_vec()).expect("an index over the text")
}

fn candidates_of(maps: &Maps, index: &TextIndex, config: &Config, id: usize) -> Vec<Candidate> {
    let pattern = maps.get_string(id).to_vec();
    index.generate_candidates(&pattern, config, maps, id, &SingleBlock).expect("a search without errors").to_vec()
}

fn solve(items: &[(&str, &str)], config: &Config) -> Vec<Solution> {
    let maps = prepare(&records(items), config);
    let index = index_of(&maps);
    let mut all = SolutionSet::new();
    for id in 0..maps.num_ids {
        let pattern = maps.get_string(id).to_vec();
        let found = index.generate_candidates(&pattern, config, &maps, id, &SingleBlock).expect("a search without errors");
        for solution in verify_all(id, found, config, &maps).into_vec() {
            all.insert(solution);
        }
    }
    all.into_vec()
}

fn geometry(s: &Solution) -> (usize, usize, Orientation, i32, i32, usize, usize, u32) {
    (s.id_a, s.id_b, s.orientation, s.overhang_left_a, s.overhang_right_b, s.overlap_a, s.overlap_b, s.errors)
}

#[test]
fn suffix_prefix_overlap_without_errors_gives_one_solution() {
    let cfg = config(0, 1, 4);
    let solutions = solve(&[("a", "AAACCC"), ("b", "CCCTTT")], &cfg);
    assert_eq!(solutions.len(), 1);
    assert_eq!(geometry(&solutions[0]), (0, 1, Orientation::Normal, 3, 3, 3, 3, 0));
    assert_eq!(solutions[0].cigar, "");
}

#[test]
fn overlap_is_found_from_the_sequence_whose_start_it_covers() {
    let cfg = config(0, 1, 4);
    let maps = prepare(&records(&[("a", "AAACCC"), ("b", "CCCTTT")]), &cfg);
    let index = index_of(&maps);
    assert_eq!(candidates_of(&maps, &index, &cfg, 0), vec![]);
    assert_eq!(
        candidates_of(&maps, &index, &cfg, 1),
        vec![Candidate { id_b: 0, overlap_a: 3, overlap_b: 3, overhang_left_a: 3 }]
    );
}

#[test]
fn lower_threshold_reports_shorter_overlaps_too() {
    let cfg = config(0, 1, 3);
    let solutions = solve(&[("a", "AAACCC"), ("b", "CCCTTT")], &cfg);
    let mut found: Vec<_> = solutions.iter().map(geometry).collect();
    found.sort();
    assert_eq!(
        found,
        vec![(0, 1, Orientation::Normal, 3, 3, 3, 3, 0), (0, 1, Orientation::Normal, 4, 4, 2, 2, 0)]
    );
}

#[test]
fn single_mismatch_is_accepted_at_one_sixth() {
    let cfg = config(1, 6, 7);
    let solutions = solve(&[("q", "AAACGC"), ("t", "AAATGC")], &cfg);
    assert_eq!(solutions.len(), 1);
    assert_eq!(geometry(&solutions[0]), (0, 1, Orientation::Normal, 0, 0, 6, 6, 1));
}

#[test]
fn single_mismatch_is_rejected_at_rate_zero() {
    let cfg = config(0, 1, 7);
    let solutions = solve(&[("q", "AAACGC"), ("t", "AAATGC")], &cfg);
    assert_eq!(solutions.len(), 0);
}

#[test]
fn contained_sequence_is_found_where_inclusions_are_asked_for() {
    let mut cfg = config(0, 1, 2);
    cfg.inclusions = true;
    let solutions = solve(&[("a", "GATTACA"), ("b", "CCGATTACATT")], &cfg);
    assert_eq!(solutions.len(), 1);
    assert_eq!(geometry(&solutions[0]), (0, 1, Orientation::Normal, -2, 2, 7, 7, 0));
}

#[test]
fn contained_sequence_is_not_found_where_inclusions_are_not_asked_for() {
    let cfg = config(0, 1, 2);
    let solutions = solve(&[("a", "GATTACA"), ("b", "CCGATTACATT")], &cfg);
    assert_eq!(solutions.len(), 0);
}

#[test]
fn overlap_with_a_reverse_complement_is_tagged_reversed() {
    let mut cfg = config(0, 1, 4);
    cfg.reversals = true;
    let solutions = solve(&[("x", "AAACCC"), ("y", "AAAGGG")], &cfg);
    assert!(!solutions.is_empty());
    for solution in &solutions {
        assert_eq!(solution.orientation, Orientation::Reversed);
        assert_eq!(solution.id_a % 2, 0);
        assert_eq!(solution.overlap_a, 3);
        assert_eq!(solution.overlap_b, 3);
        assert_eq!(solution.errors, 0);
    }
    let mut found: Vec<_> = solutions.iter().map(geometry).collect();
    found.sort();
    assert_eq!(found, vec![(0, 3, Orientation::Reversed, 3, 3, 3, 3, 0)]);
}

#[test]
fn search_without_a_served_sentinel_is_given_up() {
    let cfg = config(0, 1, 4);
    let maps = prepare(&records(&[("a", "AAACCC"), ("b", "CCCTTT")]), &cfg);
    let sa = suffix_array(&maps.text);
    let transform = bwt(&maps.text, &sa);
    let index = TextIndex::new(transform, sa, b"ACGT".to_vec()).expect("an index over the text");
    let pattern = maps.get_string(0).to_vec();
    let r = index.generate_candidates(&pattern, &cfg, &maps, 0, &SingleBlock);
    assert_eq!(r.unwrap_err(), SearchError::UnservedSymbol(b'$'));
}

#[test]
fn search_without_a_served_base_is_given_up() {
    let cfg = config(0, 1, 4);
    let maps = prepare(&records(&[("a", "AAACCC"), ("b", "CCCTTT")]), &cfg);
    let sa = suffix_array(&maps.text);
    let transform = bwt(&maps.text, &sa);
    let index = TextIndex::new(transform, sa, b"$ACT".to_vec()).expect("an index over the text");
    let pattern = maps.get_string(0).to_vec();
    let r = index.generate_candidates(&pattern, &cfg, &maps, 0, &SingleBlock);
    assert_eq!(r.unwrap_err(), SearchError::UnservedSymbol(b'G'));
}

#[test]
fn search_in_an_index_without_ranks_is_given_up() {
    let cfg = config(0, 1, 4);
    let maps = prepare(&records(&[("a", "AAACCC"), ("b", "CCCTTT")]), &cfg);
    let index = TextIndex::new(vec![], vec![], b"#$ACGNT".to_vec()).expect("an empty index");
    let pattern = maps.get_string(0).to_vec();
    let r = index.generate_candidates(&pattern, &cfg, &maps, 0, &SingleBlock);
    assert_eq!(r.unwrap_err(), SearchError::RankOutOfRange);
}

#[test]
fn hit_outside_every_sequence_is_an_error() {
    let cfg = config(0, 1, 1);
    let maps = prepare(&records(&[("a", "AAACCC"), ("b", "CCCTTT")]), &cfg);
    let sa = suffix_array(&maps.text);
    let transform = bwt(&maps.text, &sa);
    let shifted: Vec<usize> = sa.iter().map(|p| p + 100).collect();
    let index = TextIndex::new(transform, shifted, b"#$ACGNT".to_vec()).expect("an index over the text");
    let pattern = maps.get_string(1).to_vec();
    let r = index.generate_candidates(&pattern, &cfg, &maps, 1, &SingleBlock);
    assert!(matches!(r.unwrap_err(), SearchError::NoSequenceAt(_)));
}

#[test]
fn indel_search_reports_only_sequences_with_greater_ids() {
    let mut cfg = config(1, 5, 4);
    cfg.edit_distance = true;
    let items = [("y", "ACGTACGTACGGGGG"), ("x", "TTTTTACGTCGTAC")];
    let maps = prepare(&records(&items), &cfg);
    let index = index_of(&maps);
    let from_first = candidates_of(&maps, &index, &cfg, 0);
    assert!(!from_first.is_empty());
    assert!(from_first.iter().all(|c| c.id_b == 1));
    assert_eq!(candidates_of(&maps, &index, &cfg, 1), vec![]);
}

#[test]
fn overlap_with_a_deletion_is_accepted_within_the_rate() {
    let mut cfg = config(1, 5, 4);
    cfg.edit_distance = true;
    let solutions = solve(&[("y", "ACGTACGTACGGGGG"), ("x", "TTTTTACGTCGTAC")], &cfg);
    let found: Vec<_> = solutions.iter().map(geometry).collect();
    assert!(found.contains(&(1, 0, Orientation::Normal, 5, 5, 9, 10, 1)), "{:?}", found);
    assert!(solutions.iter().all(|s| s.errors as usize <= s.overlap_a.max(s.overlap_b) / 5));
}

#[test]
fn exact_overlap_is_found_by_indel_search_from_the_smaller_id() {
    let mut cfg = config(0, 1, 4);
    cfg.edit_distance = true;
    let solutions = solve(&[("b", "CCCTTT"), ("a", "AAACCC")], &cfg);
    let found: Vec<_> = solutions.iter().map(geometry).collect();
    assert_eq!(found, vec![(1, 0, Orientation::Normal, 3, 3, 3, 3, 0)]);
    let solutions = solve(&[("a", "AAACCC"), ("b", "CCCTTT")], &cfg);
    assert_eq!(solutions.len(), 0);
}

#[test]
fn solution_set_is_the_same_in_any_order_of_queries() {
    let mut cfg = config(1, 6, 3);
    cfg.inclusions = true;
    let items = [("q", "AAACGC"), ("t", "AAATGC"), ("u", "GCAAAC"), ("v", "CGCAA")];
    let maps = prepare(&records(&items), &cfg);
    let index = index_of(&maps);
    let mut forward = SolutionSet::new();
    let mut backward = SolutionSet::new();
    for id in 0..maps.num_ids {
        let pattern = maps.get_string(id).to_vec();
        let found = index.generate_candidates(&pattern, &cfg, &maps, id, &SingleBlock).unwrap();
        for s in verify_all(id, found, &cfg, &maps).into_vec() {
            forward.insert(s);
        }
    }
    for id in (0..maps.num_ids).rev() {
        let pattern = maps.get_string(id).to_vec();
        let found = index.generate_candidates(&pattern, &cfg, &maps, id, &SingleBlock).unwrap();
        for s in verify_all(id, found, &cfg, &maps).into_vec().into_iter().rev() {
            backward.insert(s);
        }
    }
    let mut one: Vec<_> = forward.into_vec().iter().map(geometry).collect();
    let mut other: Vec<_> = backward.into_vec().iter().map(geometry).collect();
    one.sort();
    other.sort();
    assert!(!one.is_empty());
    assert_eq!(one, other);
}

#[test]
fn hamming_solutions_have_equal_overlaps_and_candidates_fill_the_query() {
    let mut cfg = config(1, 4, 2);
    cfg.inclusions = true;
    let items = [("q", "AAACGC"), ("t", "AAATGC"), ("u", "GCAAAC"), ("v", "CGCAA")];
    let maps = prepare(&records(&items), &cfg);
    let index = index_of(&maps);
    for id in 0..maps.num_ids {
        let a_len = maps.get_length(id);
        for c in candidates_of(&maps, &index, &cfg, id) {
            assert_eq!(c.a3(a_len), 0);
            assert!(c.a1() == 0 || c.b1() == 0);
            assert_eq!(c.overlap_a, c.overlap_b);
            assert_ne!(c.id_b, id);
        }
    }
    for s in solve(&items, &cfg) {
        assert_eq!(s.overlap_a, s.overlap_b);
    }
}

#[test]
fn plugged_policy_of_two_blocks_finds_the_same_exact_overlap() {
    let cfg = config(0, 1, 4);
    let maps = prepare(&records(&[("a", "AAACCC"), ("b", "CCCTTT")]), &cfg);
    let index = index_of(&maps);
    let policy = Plugged::new(
        |patt_len: i32, _rate: ErrorRate, _thresh: i32| vec![patt_len / 2, patt_len - patt_len / 2],
        |completed: i32, _blocks: i32| completed,
        |matched_len: i32, _completed: i32, thresh: i32, _errors: i32| matched_len >= thresh,
    );
    let pattern = maps.get_string(1).to_vec();
    let found = index.generate_candidates(&pattern, &cfg, &maps, 1, &policy).unwrap().to_vec();
    assert_eq!(found, vec![Candidate { id_b: 0, overlap_a: 3, overlap_b: 3, overhang_left_a: 3 }]);
}

#[test]
fn blocks_that_do_not_cut_the_query_are_an_error() {
    let cfg = config(0, 1, 4);
    let maps = prepare(&records(&[("a", "AAACCC"), ("b", "CCCTTT")]), &cfg);
    let index = index_of(&maps);
    let pattern = maps.get_string(1).to_vec();
    let short = Plugged::new(
        |patt_len: i32, _rate: ErrorRate, _thresh: i32| vec![patt_len - 1],
        |_completed: i32, _blocks: i32| 0,
        |_len: i32, _completed: i32, _thresh: i32, _errors: i32| true,
    );
    assert_eq!(index.generate_candidates(&pattern, &cfg, &maps, 1, &short).unwrap_err(), SearchError::BadBlocks);
    let negative = Plugged::new(
        |patt_len: i32, _rate: ErrorRate, _thresh: i32| vec![patt_len + 1, -1],
        |_completed: i32, _blocks: i32| 0,
        |_len: i32, _completed: i32, _thresh: i32, _errors: i32| true,
    );
    assert_eq!(index.generate_candidates(&pattern, &cfg, &maps, 1, &negative).unwrap_err(), SearchError::BadBlocks);
}

#[test]
fn policy_that_permits_nothing_finds_only_exact_overlaps() {
    let cfg = config(1, 2, 4);
    let maps = prepare(&records(&[("a", "AAACGC"), ("b", "CCCTTT")]), &cfg);
    let index = index_of(&maps);
    let pattern = maps.get_string(1).to_vec();
    let strict = Plugged::new(
        |patt_len: i32, _rate: ErrorRate, _thresh: i32| vec![patt_len],
        |_completed: i32, _blocks: i32| 0,
        |matched_len: i32, _completed: i32, thresh: i32, _errors: i32| matched_len >= thresh,
    );
    assert_eq!(index.generate_candidates(&pattern, &cfg, &maps, 1, &strict).unwrap().to_vec(), vec![]);
    let loose = index.generate_candidates(&pattern, &cfg, &maps, 1, &SingleBlock).unwrap().to_vec();
    assert!(loose.contains(&Candidate { id_b: 0, overlap_a: 3, overlap_b: 3, overhang_left_a: 3 }));
}

#[test]
fn overlap_seen_on_both_strands_is_one_solution() {
    let mut cfg = config(0, 1, 4);
    cfg.reversals = true;
    let solutions = solve(&[("x", "AAACCC"), ("y", "CCCTTT")], &cfg);
    let found: Vec<_> = solutions.iter().map(geometry).collect();
    assert_eq!(found, vec![(0, 2, Orientation::Normal, 3, 3, 3, 3, 0)]);
}

#[test]
fn sequence_is_not_matched_with_its_own_reverse_complement() {
    let mut cfg = config(0, 1, 4);
    cfg.reversals = true;
    let maps = prepare(&records(&[("p", "AAATTT"), ("q", "GGGGGG")]), &cfg);
    let index = index_of(&maps);
    for id in 0..maps.num_ids {
        for c in candidates_of(&maps, &index, &cfg, id) {
            assert_ne!(c.id_b, id);
            assert_ne!(c.id_b, id ^ 1);
        }
    }
}

#[test]
fn uneven_overlap_keeps_its_overhangs_through_the_strands() {
    let mut cfg = config(0, 1, 4);
    cfg.reversals = true;
    let solutions = solve(&[("x", "GAAACCC"), ("y", "CCCTTTTT")], &cfg);
    let found: Vec<_> = solutions.iter().map(geometry).collect();
    assert_eq!(found, vec![(0, 2, Orientation::Normal, 4, 5, 3, 3, 0)]);
}

#[test]
fn symbol_outside_the_alphabet_is_found_before_the_search() {
    let cfg = config(0, 1, 4);
    assert_eq!(foreign_symbol(b"ACNT", &cfg.alphabet()), Some(b'N'));
    assert_eq!(foreign_symbol(b"AC$TX", &cfg.alphabet()), Some(b'$'));
    assert_eq!(foreign_symbol(b"ACGT", &cfg.alphabet()), None);
    assert_eq!(foreign_symbol(b"", &cfg.alphabet()), None);
    let mut with_unread = config(0, 1, 4);
    with_unread.n_alphabet = true;
    assert_eq!(foreign_symbol(b"ACNT", &with_unread.alphabet()), None);
}

#[test]
fn unread_base_costs_the_search_an_error() {
    let mut cfg = config(0, 1, 4);
    cfg.n_alphabet = true;
    assert_eq!(solve(&[("a", "AAACNC"), ("b", "CNCTTT")], &cfg).len(), 0);
    let mut lenient = config(1, 3, 4);
    lenient.n_alphabet = true;
    let found: Vec<_> = solve(&[("a", "AAACNC"), ("b", "CNCTTT")], &lenient).iter().map(geometry).collect();
    assert_eq!(found, vec![(0, 1, Orientation::Normal, 3, 3, 3, 3, 0)]);
}
