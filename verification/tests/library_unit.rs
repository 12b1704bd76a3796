use book_scanning::library::{Library, LibraryScore};

#[test]
fn construction_sorts_by_value_then_id_descending() {
    let values: Vec<usize> = vec![5, 1, 5, 2];
    let library = Library::new(7, vec![0, 1, 2, 3], 2, 3, &values);
    // Values 5, 1, 5, 2: the two fives first (higher id breaks the tie).
    assert_eq!(library.books, vec![2, 0, 3, 1]);
    assert_eq!(library.id, 7);
    assert_eq!(library.sign_up_days, 2);
    assert_eq!(library.books_per_day, 3);
}

#[test]
fn remove_books_drops_matches_and_keeps_order() {
    let values: Vec<usize> = vec![1, 2, 3, 4, 5];
    let mut library = Library::new(0, vec![0, 1, 2, 3, 4], 0, 1, &values);
    assert_eq!(library.books, vec![4, 3, 2, 1, 0]);
    library.remove_books(&vec![3, 9, 1]);
    assert_eq!(library.books, vec![4, 2, 0]);
}

#[test]
fn remove_books_of_absent_ids_is_a_no_op() {
    let values: Vec<usize> = vec![1, 2];
    let mut library = Library::new(0, vec![0, 1], 0, 1, &values);
    library.remove_books(&vec![5, 6]);
    assert_eq!(library.books, vec![1, 0]);
}

#[test]
fn calculate_score_sums_the_best_prefix() {
    let values: Vec<usize> = vec![10, 20, 30, 40, 50];
    let library = Library::new(0, vec![0, 1, 2, 3, 4], 1, 2, &values);
    let score = library.calculate_score(3, &values, 6);
    // Capacity (3 - 1) * 2 = 4 books: 50 + 40 + 30 + 20 over 6 * 1 + 3.
    assert_eq!(score.num_books_to_ship, 4);
    assert_eq!(score.num, 140);
    assert_eq!(score.den, 9);
    assert_eq!(score.index, 6);
}

#[test]
fn calculate_score_capacity_is_not_capped_by_held_books() {
    let values: Vec<usize> = vec![10];
    let library = Library::new(0, vec![0], 0, 3, &values);
    let score = library.calculate_score(2, &values, 0);
    // num_books_to_ship stays the raw capacity 2 * 3 even with one book held.
    assert_eq!(score.num_books_to_ship, 6);
    assert_eq!(score.num, 10);
    assert_eq!(score.den, 2);
}

#[test]
fn calculate_score_unusable_library_is_the_sentinel() {
    let values: Vec<usize> = vec![10, 20];
    let library = Library::new(3, vec![0, 1], 7, 2, &values);
    let score = library.calculate_score(6, &values, 3);
    let sentinel = LibraryScore::default();
    assert_eq!(score.index, sentinel.index);
    assert_eq!(score.num_books_to_ship, sentinel.num_books_to_ship);
    assert_eq!(score.num, sentinel.num);
    assert_eq!(score.den, sentinel.den);
}

#[test]
fn sentinel_score_is_the_rational_zero() {
    let sentinel = LibraryScore::default();
    assert_eq!(sentinel.index, 0);
    assert_eq!(sentinel.num_books_to_ship, 0);
    assert_eq!(sentinel.num, 0);
    assert_eq!(sentinel.den, 1);
}

#[test]
fn zero_rate_gives_zero_capacity() {
    let values: Vec<usize> = vec![10];
    let library = Library::new(0, vec![0], 1, 0, &values);
    let score = library.calculate_score(5, &values, 0);
    assert_eq!(score.num_books_to_ship, 0);
    assert_eq!(score.num, 0);
}
