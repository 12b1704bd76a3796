use book_scanning::library::Library;
use book_scanning::problem::Problem;

fn lib(id: usize, books: Vec<usize>, sign_up_days: usize, books_per_day: usize, values: &Vec<usize>) -> Library {
    Library::new(id, books, sign_up_days, books_per_day, values)
}

#[test]
fn scenario_single_library_ships_all() {
    // 5 books, 3 days, one free library shipping 2 books a day.
    let values: Vec<usize> = vec![10, 20, 30, 40, 50];
    let library = lib(0, vec![0, 1, 2, 3, 4], 0, 2, &values);
    assert_eq!(library.books, vec![4, 3, 2, 1, 0]);
    let mut problem = Problem { books: values, days: 3, libraries: vec![library] };
    let chosen = problem.solve();
    assert_eq!(chosen.len(), 1);
    assert_eq!(chosen[0].id, 0);
    // Capacity 3 * 2 = 6 is capped by the 5 held books: all ship, best first.
    assert_eq!(chosen[0].books, vec![4, 3, 2, 1, 0]);
    assert!(problem.libraries.is_empty());
}

#[test]
fn scenario_unaffordable_library_selects_nothing() {
    let values: Vec<usize> = vec![1, 1, 1];
    let library = lib(0, vec![0, 1, 2], 10, 1, &values);
    let mut problem = Problem { books: values, days: 5, libraries: vec![library] };
    let chosen = problem.solve();
    assert!(chosen.is_empty());
    // The unusable library stays in the pool.
    assert_eq!(problem.libraries.len(), 1);
    assert_eq!(problem.libraries[0].books, vec![2, 1, 0]);
}

#[test]
fn scenario_two_libraries_overlapping_books() {
    let values: Vec<usize> = vec![100];
    let a = lib(0, vec![0], 0, 1, &values);
    let b = lib(1, vec![0], 0, 1, &values);
    let mut problem = Problem { books: values, days: 5, libraries: vec![a, b] };
    let chosen = problem.solve();
    // Identical scores: the first-seen candidate wins the tie.
    assert_eq!(chosen.len(), 1);
    assert_eq!(chosen[0].id, 0);
    assert_eq!(chosen[0].books, vec![0]);
    // The loser lost its only book to the winner and was never chosen.
    assert_eq!(problem.libraries.len(), 1);
    assert_eq!(problem.libraries[0].id, 1);
    assert!(problem.libraries[0].books.is_empty());
}

#[test]
fn zero_value_books_never_chosen() {
    // A known quirk kept on purpose: a library whose shippable books are all
    // worth zero scores the same as the sentinel and never wins, even alone.
    let values: Vec<usize> = vec![0, 0];
    let library = lib(0, vec![0, 1], 0, 5, &values);
    let mut problem = Problem { books: values, days: 10, libraries: vec![library] };
    let chosen = problem.solve();
    assert!(chosen.is_empty());
    assert_eq!(problem.libraries.len(), 1);
}

#[test]
fn truncation_keeps_most_valuable_prefix() {
    // Capacity (3 - 1) * 1 = 2 of 5 held books: only the two best ship.
    let values: Vec<usize> = vec![1, 2, 3, 4, 5];
    let library = lib(0, vec![0, 1, 2, 3, 4], 1, 1, &values);
    let mut problem = Problem { books: values, days: 3, libraries: vec![library] };
    let chosen = problem.solve();
    assert_eq!(chosen.len(), 1);
    assert_eq!(chosen[0].books, vec![4, 3]);
}

#[test]
fn sign_up_days_are_consumed_in_order() {
    // Two disjoint libraries; the richer one signs up first, leaving fewer
    // days for the second.
    let values: Vec<usize> = vec![10, 10, 10, 10, 1, 1];
    let a = lib(0, vec![0, 1, 2, 3], 1, 4, &values);
    let b = lib(1, vec![4, 5], 1, 2, &values);
    let mut problem = Problem { books: values, days: 3, libraries: vec![a, b] };
    let chosen = problem.solve();
    assert_eq!(chosen.len(), 2);
    assert_eq!(chosen[0].id, 0);
    // After a's sign-up, 2 days remain; b signs up for 1, ships 1 * 2 = 2.
    assert_eq!(chosen[1].id, 1);
    assert_eq!(chosen[1].books, vec![5, 4]);
}

#[test]
fn no_double_shipping_across_rounds() {
    // Both libraries hold book 2; only the first chosen ships it.
    let values: Vec<usize> = vec![5, 5, 50];
    let a = lib(0, vec![0, 2], 0, 2, &values);
    let b = lib(1, vec![1, 2], 0, 2, &values);
    let mut problem = Problem { books: values, days: 4, libraries: vec![a, b] };
    let chosen = problem.solve();
    assert_eq!(chosen.len(), 2);
    assert_eq!(chosen[0].id, 0);
    assert_eq!(chosen[0].books, vec![2, 0]);
    assert_eq!(chosen[1].id, 1);
    assert_eq!(chosen[1].books, vec![1]);
    for x in &chosen[0].books {
        assert!(!chosen[1].books.contains(x));
    }
}

#[test]
fn pool_shrinks_by_one_each_round() {
    let values: Vec<usize> = vec![3, 3, 3];
    let a = lib(0, vec![0], 0, 1, &values);
    let b = lib(1, vec![1], 0, 1, &values);
    let c = lib(2, vec![2], 5, 1, &values);
    let mut problem = Problem { books: values, days: 4, libraries: vec![a, b, c] };
    let chosen = problem.solve();
    // Two commits; the third library never fits its 5 sign-up days.
    assert_eq!(chosen.len(), 2);
    assert_eq!(problem.libraries.len(), 1);
    assert_eq!(chosen.len() + problem.libraries.len(), 3);
}

#[test]
fn later_candidate_with_strictly_better_score_wins() {
    let values: Vec<usize> = vec![1, 100];
    let a = lib(0, vec![0], 0, 1, &values);
    let b = lib(1, vec![1], 0, 1, &values);
    let mut problem = Problem { books: values, days: 2, libraries: vec![a, b] };
    let chosen = problem.solve();
    assert_eq!(chosen.len(), 2);
    assert_eq!(chosen[0].id, 1);
    assert_eq!(chosen[1].id, 0);
}

#[test]
fn best_library_score_removes_then_scores() {
    let values: Vec<usize> = vec![10, 20, 30];
    let a = lib(0, vec![0, 1, 2], 0, 1, &values);
    let mut problem = Problem { books: values, days: 2, libraries: vec![a] };
    // Book 2 is claimed elsewhere: it must be removed before scoring.
    let record = problem.best_library_score(2, &vec![2]);
    assert_eq!(problem.libraries[0].books, vec![1, 0]);
    // Capacity 2 * 1 = 2 of the 2 remaining books: 20 + 10 over 6 * 0 + 2.
    assert_eq!(record.index, 0);
    assert_eq!(record.num_books_to_ship, 2);
    assert_eq!(record.num, 30);
    assert_eq!(record.den, 2);
}
