use doc_formatter::fold::{line_end_char, Fold, Folds};
use ropey::Rope;

fn folds_of(ranges: &[(usize, usize)]) -> Folds {
    let mut folds = Folds::default();
    for &(start, end) in ranges {
        folds.insert(Fold::new(start, end));
    }
    folds
}

fn ranges_of(folds: &Folds) -> Vec<(usize, usize)> {
    folds.iter().map(|f| (f.start_char, f.end_char)).collect()
}

#[test]
fn fold_contains_its_range() {
    let fold = Fold::new(3, 6);
    assert_eq!((fold.start_char, fold.end_char), (3, 6));
    assert!(!fold.contains(2));
    assert!(fold.contains(3));
    assert!(fold.contains(5));
    assert!(!fold.contains(6));
    assert!(!fold.is_empty());
}

#[test]
fn fold_without_chars_is_empty() {
    assert!(Fold::new(4, 4).is_empty());
    assert!(Fold::new(5, 4).is_empty());
    assert!(!Fold::new(5, 4).contains(4));
}

#[test]
fn no_folds_at_first() {
    let folds = Folds::default();
    assert!(folds.is_empty());
    assert_eq!(folds.len(), 0);
    assert!(folds.as_slice().is_empty());
    assert!(folds.fold_at(0).is_none());
}

#[test]
fn insert_sorts_by_start() {
    let folds = folds_of(&[(10, 12), (1, 3), (5, 7)]);
    assert_eq!(ranges_of(&folds), vec![(1, 3), (5, 7), (10, 12)]);
    assert_eq!(folds.len(), 3);
    assert!(!folds.is_empty());
}

#[test]
fn insert_keeps_folds_that_touch() {
    let folds = folds_of(&[(1, 3), (5, 7), (3, 5)]);
    assert_eq!(ranges_of(&folds), vec![(1, 3), (3, 5), (5, 7)]);
}

#[test]
fn insert_throws_out_what_it_overlaps() {
    let folds = folds_of(&[(1, 3), (5, 7), (9, 11), (2, 10)]);
    assert_eq!(ranges_of(&folds), vec![(2, 10)]);
    let nested = folds_of(&[(0, 20), (5, 7)]);
    assert_eq!(ranges_of(&nested), vec![(5, 7)]);
}

#[test]
fn insert_ignores_an_empty_fold() {
    let folds = folds_of(&[(1, 5), (3, 3), (4, 2)]);
    assert_eq!(ranges_of(&folds), vec![(1, 5)]);
}

#[test]
fn inserted_fold_hides_its_chars() {
    let folds = folds_of(&[(1, 5), (4, 8)]);
    assert_eq!(folds.fold_at(4).copied(), Some(Fold::new(4, 8)));
    assert_eq!(folds.fold_at(7).copied(), Some(Fold::new(4, 8)));
    assert_eq!(folds.fold_at(8), None);
    assert_eq!(folds.fold_at(2), None);
}

#[test]
fn remove_at_shows_the_chars_again() {
    let mut folds = folds_of(&[(1, 3), (5, 7)]);
    assert!(folds.remove_at(6));
    assert_eq!(ranges_of(&folds), vec![(1, 3)]);
    assert!(folds.fold_at(6).is_none());
    assert!(!folds.remove_at(6));
    assert_eq!(ranges_of(&folds), vec![(1, 3)]);
}

#[test]
fn clear_leaves_nothing() {
    let mut folds = folds_of(&[(1, 3), (5, 7)]);
    folds.clear();
    assert!(folds.is_empty());
}

#[test]
fn clone_has_the_same_folds() {
    let folds = folds_of(&[(1, 3), (5, 7)]);
    let mut copy = folds.clone();
    assert_eq!(copy.as_slice(), folds.as_slice());
    copy.clear();
    assert_eq!(folds.len(), 2);
}

#[test]
fn prune_drops_and_sorts() {
    let mut folds = folds_of(&[(0, 2), (3, 5), (6, 8), (9, 11)]);
    let moved = folds.iter_mut();
    moved[0] = Fold::new(20, 25);
    moved[1] = Fold::new(7, 7);
    moved[2] = Fold::new(12, 14);
    moved[3] = Fold::new(2, 4);
    folds.prune(20);
    assert_eq!(ranges_of(&folds), vec![(2, 4), (12, 14)]);
}

#[test]
fn prune_keeps_a_fold_that_ends_past_the_text() {
    let mut folds = folds_of(&[(3, 50)]);
    folds.prune(4);
    assert_eq!(ranges_of(&folds), vec![(3, 50)]);
    folds.prune(3);
    assert!(folds.is_empty());
}

#[test]
fn prune_keeps_the_order_of_equal_starts() {
    let mut folds = folds_of(&[(0, 2), (3, 5), (6, 8)]);
    let moved = folds.iter_mut();
    moved[0] = Fold::new(4, 9);
    moved[1] = Fold::new(1, 2);
    moved[2] = Fold::new(4, 5);
    folds.prune(100);
    assert_eq!(ranges_of(&folds), vec![(1, 2), (4, 9), (4, 5)]);
}

#[test]
fn prune_twice_is_prune_for_the_smaller_length() {
    for (a, b) in [(8, 5), (5, 8), (5, 5), (0, 9)] {
        let mut twice = folds_of(&[(0, 2), (3, 5), (6, 8)]);
        twice.iter_mut()[1] = Fold::new(7, 9);
        let mut direct = twice.clone();
        twice.prune(a);
        twice.prune(b);
        direct.prune(a.min(b));
        assert_eq!(twice.as_slice(), direct.as_slice());
    }
}

#[test]
fn prune_keeps_folds_in_order() {
    let mut folds = folds_of(&[(6, 8), (0, 2), (3, 50)]);
    let before = folds.clone();
    folds.prune(7);
    assert_eq!(folds.as_slice(), before.as_slice());
    folds.prune(0);
    assert!(folds.is_empty());
}

#[test]
fn line_end_char_is_the_newline() {
    let rope = Rope::from_str("ab\n\ncde\n");
    let text = rope.slice(..);
    assert_eq!(line_end_char(text, 0), 2);
    assert_eq!(line_end_char(text, 1), 3);
    assert_eq!(line_end_char(text, 2), 7);
}

#[test]
fn line_end_char_of_crlf_is_the_line_feed() {
    let rope = Rope::from_str("ab\r\ncd");
    assert_eq!(line_end_char(rope.slice(..), 0), 3);
}

#[test]
fn line_end_char_clamps_in_the_last_line() {
    let rope = Rope::from_str("ab\ncd");
    let text = rope.slice(..);
    assert_eq!(line_end_char(text, 0), 2);
    assert_eq!(line_end_char(text, 1), 5);
    assert_eq!(line_end_char(text, 2), 5);
    assert_eq!(line_end_char(text, 77), 5);
    assert_eq!(line_end_char(text, usize::MAX), 5);
    let ended = Rope::from_str("ab\n");
    assert_eq!(line_end_char(ended.slice(..), 1), 3);
    let empty = Rope::from_str("");
    assert_eq!(line_end_char(empty.slice(..), 0), 0);
}
