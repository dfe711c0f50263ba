use seq_overlap::prepare::prepare;
use seq_overlap::structs::run_config::{Config, ErrorRate};
use seq_overlap::structs::solutions::{Orientation, Solution};
use std::cmp::Ordering;

fn plain() -> Config {
    Config {
        input: String::new(),
        output: String::new(),
        err_rate: ErrorRate { num: 0, den: 1 },
        thresh: 1,
        worker_threads: 1,
        sorted: false,
        reversals: false,
        inclusions: false,
        edit_distance: false,
        verbose: false,
        time: false,
        print: false,
        n_alphabet: true,
    }
}

fn at(id_a: usize, id_b: usize, orientation: Orientation, left: i32, right: i32, oa: usize, ob: usize) -> Solution {
    Solution {
        id_a,
        id_b,
        orientation,
        overhang_left_a: left,
        overhang_right_b: right,
        overlap_a: oa,
        overlap_b: ob,
        errors: 0,
        cigar: String::new(),
    }
}

#[test]
fn spaces_and_tildes_repeat_their_sign() {
    let maps = prepare(&vec![("a".to_string(), b"ACGT".to_vec())], &plain());
    assert_eq!(maps.spaces(3), "   ");
    assert_eq!(maps.spaces(0), "");
    assert_eq!(maps.spaces(-2), "");
    assert_eq!(maps.tildes(4), "~~~~");
    assert_eq!(maps.tildes(-1), "");
}

#[test]
fn formatted_shows_the_stored_sequence() {
    let maps = prepare(&vec![("a".to_string(), b"ACGT".to_vec()), ("b".to_string(), b"NNA".to_vec())], &plain());
    assert_eq!(maps.formatted(0), "TGCA");
    assert_eq!(maps.formatted(1), "ANN");
}

#[test]
fn solutions_are_ordered_field_by_field() {
    let base = at(1, 2, Orientation::Normal, 0, 0, 5, 5);
    assert_eq!(base.partial_cmp(&at(1, 2, Orientation::Normal, 0, 0, 5, 5)), Some(Ordering::Equal));
    assert_eq!(base.partial_cmp(&at(2, 0, Orientation::Normal, 0, 0, 0, 0)), Some(Ordering::Less));
    assert_eq!(base.partial_cmp(&at(1, 1, Orientation::Reversed, 9, 9, 9, 9)), Some(Ordering::Greater));
    assert_eq!(base.partial_cmp(&at(1, 2, Orientation::Reversed, -9, 0, 0, 0)), Some(Ordering::Less));
    assert_eq!(base.partial_cmp(&at(1, 2, Orientation::Normal, -1, 9, 9, 9)), Some(Ordering::Greater));
    assert_eq!(base.partial_cmp(&at(1, 2, Orientation::Normal, 0, 1, 0, 0)), Some(Ordering::Less));
    assert_eq!(base.partial_cmp(&at(1, 2, Orientation::Normal, 0, 0, 4, 9)), Some(Ordering::Greater));
    assert_eq!(base.partial_cmp(&at(1, 2, Orientation::Normal, 0, 0, 5, 6)), Some(Ordering::Less));
    assert!(base < at(1, 3, Orientation::Normal, 0, 0, 5, 5));
}

#[test]
fn order_ignores_errors_and_summary() {
    let mut one = at(1, 2, Orientation::Normal, 0, 0, 5, 5);
    let mut other = at(1, 2, Orientation::Normal, 0, 0, 5, 5);
    one.errors = 3;
    other.cigar = "5M".to_string();
    assert_eq!(one.partial_cmp(&other), Some(Ordering::Equal));
}
