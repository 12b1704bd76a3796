use book_scanning::problem::{BuildError, Problem};

fn good_rows() -> Vec<Vec<usize>> {
    vec![
        vec![5, 2, 7],
        vec![10, 20, 30, 40, 50],
        vec![3, 1, 2],
        vec![0, 1, 2],
        vec![2, 2, 1],
        vec![3, 4],
    ]
}

#[test]
fn from_rows_builds_the_instance() {
    let rows = good_rows();
    let problem = Problem::from_rows(&rows).unwrap();
    assert_eq!(problem.days, 7);
    assert_eq!(problem.books, vec![10, 20, 30, 40, 50]);
    assert_eq!(problem.libraries.len(), 2);
    assert_eq!(problem.libraries[0].id, 0);
    assert_eq!(problem.libraries[0].sign_up_days, 1);
    assert_eq!(problem.libraries[0].books_per_day, 2);
    // Shelves come out sorted by descending value.
    assert_eq!(problem.libraries[0].books, vec![2, 1, 0]);
    assert_eq!(problem.libraries[1].books, vec![4, 3]);
}

#[test]
fn from_rows_rejects_a_missing_header() {
    let rows: Vec<Vec<usize>> = vec![vec![5, 2, 7]];
    assert_eq!(Problem::from_rows(&rows).unwrap_err(), BuildError::MissingHeader);
    let rows: Vec<Vec<usize>> = vec![vec![5, 2], vec![10, 20]];
    assert_eq!(Problem::from_rows(&rows).unwrap_err(), BuildError::MissingHeader);
    let rows: Vec<Vec<usize>> = vec![];
    assert_eq!(Problem::from_rows(&rows).unwrap_err(), BuildError::MissingHeader);
}

#[test]
fn from_rows_rejects_missing_library_rows() {
    let mut rows = good_rows();
    rows.pop();
    assert_eq!(Problem::from_rows(&rows).unwrap_err(), BuildError::MissingLines);
}

#[test]
fn from_rows_rejects_a_short_library_line() {
    let mut rows = good_rows();
    rows[2] = vec![3, 1];
    assert_eq!(Problem::from_rows(&rows).unwrap_err(), BuildError::ShortLibraryLine);
}

#[test]
fn from_rows_rejects_a_book_id_out_of_range() {
    let mut rows = good_rows();
    rows[5] = vec![3, 5];
    assert_eq!(Problem::from_rows(&rows).unwrap_err(), BuildError::BookIdOutOfRange);
}

#[test]
fn from_rows_rejects_an_oversized_sign_up() {
    // 6 * sign_up_days + days cannot be represented, so scoring could not
    // run: the instance is refused rather than miscomputed.
    let rows: Vec<Vec<usize>> = vec![
        vec![1, 1, usize::MAX],
        vec![7],
        vec![1, 1, 0],
        vec![0],
    ];
    assert_eq!(Problem::from_rows(&rows).unwrap_err(), BuildError::TooLarge);
}

#[test]
fn from_rows_rejects_an_oversized_book_value_sum() {
    let rows: Vec<Vec<usize>> = vec![
        vec![2, 1, 3],
        vec![usize::MAX, usize::MAX],
        vec![2, 0, 1],
        vec![0, 1],
    ];
    assert_eq!(Problem::from_rows(&rows).unwrap_err(), BuildError::TooLarge);
}

#[test]
fn from_rows_ignores_trailing_rows() {
    let mut rows = good_rows();
    rows.push(vec![]);
    assert!(Problem::from_rows(&rows).is_ok());
}

#[test]
fn solve_after_from_rows_end_to_end() {
    // The documented five-book scenario, fed through the row builder.
    let rows: Vec<Vec<usize>> = vec![
        vec![5, 1, 3],
        vec![10, 20, 30, 40, 50],
        vec![5, 0, 2],
        vec![0, 1, 2, 3, 4],
    ];
    let mut problem = Problem::from_rows(&rows).unwrap();
    let chosen = problem.solve();
    assert_eq!(chosen.len(), 1);
    assert_eq!(chosen[0].id, 0);
    assert_eq!(chosen[0].books, vec![4, 3, 2, 1, 0]);
}
