use std::collections::HashSet;
use sudoku::cell::Cell;

#[test]
fn can_make_blank_cell() {
    let cell = Cell::new_blank();
    let cell2 = Cell::new_blank();

    assert_eq!(cell, cell2);
}

#[test]
fn can_make_filled_cell() {
    let cell = Cell::new_from_number(1);

    assert_eq!(cell.get(), 1);
}

#[test]
fn can_set_cell() {
    let mut cell = Cell::new_blank();
    cell.set(1);

    assert_eq!(cell.get(), 1);
}

#[test]
fn can_add_annotation() {
    let mut cell = Cell::new_blank();
    cell.add_annotation(1);

    assert_eq!(cell.get_annotations(), HashSet::from([1]));
}

#[test]
fn can_remote_annotation() {
    let mut cell = Cell::new_blank();
    cell.add_annotation(1);
    cell.remove_annotation(1);

    assert_eq!(cell.get_annotations(), HashSet::from([]));
}

#[test]
fn can_set_annotations() {
    let mut cell = Cell::new_blank();
    cell.set_annotations(HashSet::from([1]));

    assert_eq!(cell.get_annotations(), HashSet::from([1]));
}

#[test]
fn can_clear_annotations() {
    let mut cell = Cell::new_blank();
    cell.set_annotations(HashSet::from([1]));
    cell.clear_annotations();

    assert_eq!(cell.get_annotations(), HashSet::from([]));
}

#[test]
fn add_annotation_reports_whether_new() {
    let mut cell = Cell::new_blank();
    assert!(cell.add_annotation(4));
    assert!(!cell.add_annotation(4));
    assert!(cell.add_annotation(9));
    assert_eq!(cell.get_annotations(), HashSet::from([4, 9]));
}

#[test]
fn removing_absent_annotation_is_a_no_op() {
    let mut cell = Cell::new_blank();
    cell.set_annotations(HashSet::from([2, 3]));
    let before = cell;
    assert!(!cell.remove_annotation(5));
    assert!(!cell.remove_annotation(0));
    assert!(!cell.remove_annotation(42));
    assert_eq!(cell, before);
    assert!(cell.remove_annotation(2));
    assert!(!cell.remove_annotation(2));
    assert_eq!(cell.get_annotations(), HashSet::from([3]));
}

#[test]
fn render_cell_digit_or_space() {
    assert_eq!(Cell::new_blank().to_str_unannotated(), " ");
    assert_eq!(Cell::new_from_number(7).to_str_unannotated(), "7");
    assert_eq!(Cell::new_from_number(9).to_str_unannotated(), "9");
}

#[test]
fn single_annotation_only_for_one_candidate() {
    let mut cell = Cell::new_blank();
    assert_eq!(cell.single_annotation(), None);
    cell.add_annotation(5);
    assert_eq!(cell.single_annotation(), Some(5));
    cell.add_annotation(6);
    assert_eq!(cell.single_annotation(), None);
    assert!(cell.has_annotation(6));
    assert!(!cell.has_annotation(1));
}

#[test]
fn set_keeps_annotations() {
    let mut cell = Cell::new_blank();
    cell.add_annotation(3);
    cell.set(8);
    assert_eq!(cell.get(), 8);
    assert_eq!(cell.get_annotations(), HashSet::from([3]));
}
