use hitbtc::book::Book;
use hitbtc::book::BookSide;

#[test]
fn empty_side_has_no_best() {
    let side = BookSide::new();
    assert_eq!(side.best_high(), None);
    assert_eq!(side.best_low(), None);
    assert_eq!(side.entries(), vec![]);
}

#[test]
fn set_level_keeps_price_order() {
    let mut side = BookSide::new();
    side.set_level(300, 1);
    side.set_level(100, 2);
    side.set_level(200, 3);
    assert_eq!(side.entries(), vec![(100, 2), (200, 3), (300, 1)]);
    assert_eq!(side.best_high(), Some((300, 1)));
    assert_eq!(side.best_low(), Some((100, 2)));
}

#[test]
fn set_level_overwrites_existing_price() {
    let mut side = BookSide::new();
    side.set_level(100, 2);
    side.set_level(100, 9);
    assert_eq!(side.entries(), vec![(100, 9)]);
}

#[test]
fn zero_size_deletes_resting_level() {
    let mut side = BookSide::new();
    side.set_level(100, 2);
    side.set_level(200, 3);
    side.apply(100, 0);
    assert_eq!(side.entries(), vec![(200, 3)]);
}

#[test]
fn zero_size_for_absent_price_is_a_no_op() {
    let mut side = BookSide::new();
    side.set_level(100, 2);
    side.apply(999, 0);
    assert_eq!(side.entries(), vec![(100, 2)]);
    let mut empty = BookSide::new();
    empty.apply(1, 0);
    assert_eq!(empty.entries(), vec![]);
}

#[test]
fn update_applies_deltas_in_order() {
    let mut side = BookSide::new();
    side.apply_update(&vec![(100, 5), (200, 7), (100, 6), (300, 1), (200, 0)]);
    // the later delta for each price wins
    assert_eq!(side.entries(), vec![(100, 6), (300, 1)]);
}

#[test]
fn snapshot_discards_prior_state() {
    let mut side = BookSide::new();
    side.set_level(1, 1);
    side.set_level(2, 2);
    side.replace_with(&vec![(500, 5)]);
    assert_eq!(side.entries(), vec![(500, 5)]);
}

#[test]
fn snapshot_idempotence() {
    // the same snapshot applied to different prior states, and twice in a
    // row, leaves identical contents
    let entries = vec![(100, 5), (300, 1), (200, 7)];
    let mut a = BookSide::new();
    a.replace_with(&entries);
    let first = a.entries();
    a.replace_with(&entries);
    assert_eq!(a.entries(), first);
    let mut b = BookSide::new();
    b.set_level(42, 42);
    b.replace_with(&entries);
    assert_eq!(b.entries(), first);
}

#[test]
fn ordering_invariant_best_is_extreme() {
    let mut side = BookSide::new();
    side.apply_update(&vec![(17, 1), (3, 2), (90, 3), (55, 4)]);
    let entries = side.entries();
    let max = entries.iter().map(|e| e.0).max().unwrap();
    let min = entries.iter().map(|e| e.0).min().unwrap();
    assert_eq!(side.best_high().unwrap().0, max);
    assert_eq!(side.best_low().unwrap().0, min);
}

#[test]
fn book_tracks_both_sides_independently() {
    let mut book = Book::new();
    book.apply_snapshot(&vec![(10000, 15)], &vec![(10050, 20)]);
    assert_eq!(book.best_bid(), Some((10000, 15)));
    assert_eq!(book.best_ask(), Some((10050, 20)));
    book.apply_update(&vec![(10025, 10)], &vec![]);
    assert_eq!(book.best_bid(), Some((10025, 10)));
    assert_eq!(book.best_ask(), Some((10050, 20)));
}
