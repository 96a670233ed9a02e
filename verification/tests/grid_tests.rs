use contest_solvers::boxes::{group_ranges, row_ranges, Bits as BoxBits, Data};
use contest_solvers::obsidian::{grid_from_lines, longest_first};

#[test]
fn box_bits_start_clear_and_set() {
    let mut b = BoxBits::new(2, 3);
    assert!(!b.get(1, 1));
    b.set(1, 1);
    assert!(b.get(1, 1));
    assert!(!b.get(0, 1));
    assert!(!b.get(2, 0));
}

#[test]
fn row_ranges_split_on_gaps() {
    assert_eq!(row_ranges(b"1 1 0 0 1", 1), vec![(0, 1), (4, 4)]);
    assert_eq!(row_ranges(b"1 1 0 0 1", 3), vec![(0, 4)]);
    assert_eq!(row_ranges(b"0 0 0", 1), Vec::<(usize, usize)>::new());
}

#[test]
fn union_find_joins_groups() {
    let mut d = Data::new(10);
    d.add_root(0, 0, 2);
    d.add_root(1, 5, 6);
    d.add_root(2, 1, 1);
    let r1 = d.get_root(0, 0);
    let r2 = d.get_root(1, 5);
    assert_ne!(r1, r2);
    let r = d.merge(r1, r2);
    assert_eq!(r, r1);
    assert_eq!(d.get_root(1, 5), r1);
    let boxes = d.list_boxes();
    assert_eq!(boxes, vec![(0, (0, 0, 6, 1)), (21, (1, 2, 1, 2))]);
}

#[test]
fn far_ranges_stay_apart() {
    let lines = vec![b"1 1 0 0 1".to_vec(), b"0 0 0 1 0".to_vec()];
    let d = group_ranges(5, 1, &lines);
    let boxes: Vec<_> = d.list_boxes().into_iter().map(|(_, b)| b).collect();
    assert_eq!(boxes, vec![(0, 0, 1, 0), (4, 0, 4, 0), (3, 1, 3, 1)]);
}

#[test]
fn near_ranges_join() {
    let lines = vec![b"1 1 0 0 1".to_vec(), b"0 0 0 1 0".to_vec()];
    let d = group_ranges(5, 2, &lines);
    let boxes: Vec<_> = d.list_boxes().into_iter().map(|(_, b)| b).collect();
    assert_eq!(boxes, vec![(0, 0, 1, 0), (3, 0, 4, 1)]);
}

#[test]
fn words_longest_first() {
    assert_eq!(longest_first(&vec![1, 3, 2, 3]), vec![3, 3, 2, 1]);
}

#[test]
fn grid_refuses_other_bytes() {
    assert!(grid_from_lines(1, 2, &vec![b"xq".to_vec()]).is_none());
}

#[test]
fn free_grid_takes_a_word() {
    let g = grid_from_lines(2, 2, &vec![b"dd".to_vec(), b"dd".to_vec()]).unwrap();
    assert_eq!(g.cell_count(), 4);
    assert!(g.solve(&[2]));
    assert!(g.solve(&[2, 2]));
    assert!(!g.solve(&[3]));
}

#[test]
fn taken_cell_blocks_words() {
    let g = grid_from_lines(2, 2, &vec![b"xd".to_vec(), b"dd".to_vec()]).unwrap();
    assert!(!g.get(1, 0));
    assert!(g.get(0, 0));
    assert!(g.solve(&[2]));
    assert!(!g.solve(&[2, 2]));
}
