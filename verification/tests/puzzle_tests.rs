use contest_solvers::bookreturn::book_returns;
use contest_solvers::darkcells::cheapest_fill;
use contest_solvers::fields::parse_ints;
use contest_solvers::flips::{flips_answer, full_mask, row_bits, set_columns, zero_count};
use contest_solvers::mosaic::{push_without_spaces, read_face, FaceCounts};
use contest_solvers::valet::{park_horses, State};

#[test]
fn book_taken_from_empty_shelf_is_reported() {
    assert_eq!(book_returns(b"+-+--"), vec![5]);
    assert_eq!(book_returns(b"-"), vec![1]);
    assert_eq!(book_returns(b"+\n"), Vec::<usize>::new());
    assert_eq!(book_returns(b"--"), vec![1]);
}

#[test]
fn cheapest_fill_takes_the_big_item_twice() {
    let (cost, counts) = cheapest_fill(&vec![(5, 2), (3, 1)], 4).unwrap();
    assert_eq!(cost, 10);
    assert_eq!(counts, vec![2, 0]);
}

#[test]
fn cheapest_fill_mixes_items() {
    let (cost, counts) = cheapest_fill(&vec![(5, 2), (3, 1)], 3).unwrap();
    assert_eq!(cost, 8);
    assert_eq!(counts, vec![1, 1]);
}

#[test]
fn cheapest_fill_of_an_unreachable_size() {
    let (cost, counts) = cheapest_fill(&vec![(1, 3)], 4).unwrap();
    assert_eq!(cost, u64::MAX);
    assert_eq!(counts, vec![0]);
}

#[test]
fn cheapest_fill_of_nothing_costs_nothing() {
    let (cost, counts) = cheapest_fill(&vec![(7, 2)], 0).unwrap();
    assert_eq!(cost, 0);
    assert_eq!(counts, vec![0]);
}

#[test]
fn cheapest_fill_refuses_costs_that_overflow() {
    assert!(cheapest_fill(&vec![(u64::MAX - 1, 1)], 2).is_none());
    assert_eq!(cheapest_fill(&vec![(u64::MAX - 1, 1)], 1), Some((u64::MAX - 1, vec![1])));
}

#[test]
fn parse_ints_reads_fields() {
    assert_eq!(parse_ints("3 4  5\n"), Some(vec![3, 4, 5]));
    assert_eq!(parse_ints("  +7\t8 "), Some(vec![7, 8]));
    assert_eq!(parse_ints(""), Some(vec![]));
    assert_eq!(parse_ints("1 x"), None);
    assert_eq!(parse_ints("18446744073709551616"), None);
}

#[test]
fn parse_ints_splits_on_unicode_whitespace() {
    assert_eq!(parse_ints("1\u{3000}2\u{a0}3\u{2028}"), Some(vec![1, 2, 3]));
    assert_eq!(parse_ints("\u{85}9"), Some(vec![9]));
    assert_eq!(parse_ints("4 \u{ff11}"), None);
}

#[test]
fn row_bits_reads_every_other_byte() {
    assert_eq!(row_bits(b"1 0 1"), 5);
    assert_eq!(row_bits(b"0 1 1"), 6);
}

#[test]
fn full_mask_covers_the_columns() {
    assert_eq!(full_mask(3), 7);
    assert_eq!(full_mask(64), u64::MAX);
}

#[test]
fn zero_count_counts_clear_bits() {
    assert_eq!(zero_count(5), 62);
    assert_eq!(zero_count(0), 64);
    assert_eq!(zero_count(u64::MAX), 0);
}

#[test]
fn set_columns_lists_set_bits() {
    assert_eq!(set_columns(0b1010, 4), vec![1, 3]);
    assert_eq!(set_columns(0b1010, 2), vec![1]);
}

#[test]
fn flips_prefers_fewer_flips() {
    let rows = vec![b"1 0 1".to_vec(), b"0 1 0".to_vec(), b"1 1 0".to_vec()];
    let (score, cols) = flips_answer(&rows, 3).unwrap();
    assert_eq!(score, 2);
    assert_eq!(cols, vec![1]);
}

#[test]
fn flips_of_no_rows() {
    assert!(flips_answer(&Vec::new(), 3).is_none());
}

fn cube_with_face(face: &[u8; 9], fill: u8) -> Vec<u8> {
    let mut d = vec![fill; 27];
    let cells = [0, 1, 2, 9, 10, 11, 18, 19, 20];
    for k in 0..9 {
        d[cells[k]] = face[k];
    }
    d
}

#[test]
fn cube_face_of_the_first_orientation() {
    let d = cube_with_face(b"abcdefghi", b'z');
    assert_eq!(read_face(&d, 0), b"abcdefghi".to_vec());
}

#[test]
fn mosaic_counts_a_shown_tile() {
    let rows = vec![b"abc".to_vec(), b"def".to_vec(), b"ghi".to_vec()];
    let counts = FaceCounts::from_picture(&rows, 1, 1);
    assert_eq!(counts.count_of(b"abcdefghi"), 1);
    assert_eq!(counts.count_of(b"zzzzzzzzz"), 0);
    let d = cube_with_face(b"abcdefghi", b'z');
    assert_eq!(counts.cube_total(&d), 1);
}

#[test]
fn mosaic_counts_each_face_once() {
    let rows = vec![b"zzzzzz".to_vec(), b"zzzzzz".to_vec(), b"zzzzzz".to_vec()];
    let counts = FaceCounts::from_picture(&rows, 2, 1);
    assert_eq!(counts.count_of(b"zzzzzzzzz"), 2);
    let d = vec![b'z'; 27];
    assert_eq!(counts.cube_total(&d), 2);
}

#[test]
fn spaces_are_dropped() {
    let mut out = Vec::new();
    push_without_spaces(&mut out, b"a b  c");
    push_without_spaces(&mut out, b" d");
    assert_eq!(out, b"abcd".to_vec());
}

#[test]
fn state_advance_drops_and_shortens() {
    let s = State(vec![(3, 0), (5, 1), (2, 2)]);
    let a = s.advance(3);
    assert_eq!(a.0, vec![(2, 1)]);
}

#[test]
fn state_insert_keeps_order() {
    let s = State(vec![(2, 1), (5, 0)]);
    let t = s.insert(3, 4);
    assert_eq!(t.0, vec![(2, 1), (3, 4), (5, 0)]);
    let u = s.insert(2, 0);
    assert_eq!(u.0, vec![(2, 0), (2, 1), (5, 0)]);
}

#[test]
fn horses_take_the_cheap_level_in_turn() {
    let r = park_horses(&vec![1, 1], &vec![(0, 5), (1, 5)]).unwrap();
    assert_eq!(r, vec![(1, 1), (2, 2)]);
}

#[test]
fn horses_that_leave_free_their_level() {
    let r = park_horses(&vec![1], &vec![(0, 2), (5, 3)]).unwrap();
    assert_eq!(r, vec![(1, 1), (2, 1)]);
}

#[test]
fn too_many_horses_cannot_park() {
    assert!(park_horses(&vec![1], &vec![(0, 5), (1, 5)]).is_none());
}

#[test]
fn cheapest_levels_go_to_the_longest_stay() {
    let r = park_horses(&vec![1, 1], &vec![(0, 1), (0, 10)]).unwrap();
    assert_eq!(r, vec![(1, 2), (2, 1)]);
}
