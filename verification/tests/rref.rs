use gugen::error::GugenError;
use gugen::frac::Frac;
use gugen::rref::{null_vector, row_reduce};

fn f(n: i128, d: i128) -> Frac {
    Frac::new(n, d).unwrap()
}

#[test]
fn row_reduce_reaches_the_identity_for_an_invertible_matrix() {
    let mut m = vec![vec![f(1, 1), f(2, 1)], vec![f(3, 1), f(4, 1)]];
    let pivots = row_reduce(&mut m).unwrap();
    assert_eq!(pivots, vec![0, 1]);
    assert_eq!(m, vec![vec![f(1, 1), f(0, 1)], vec![f(0, 1), f(1, 1)]]);
}

#[test]
fn row_reduce_leaves_a_free_column() {
    let mut m = vec![vec![f(2, 1), f(4, 1), f(2, 1)], vec![f(1, 1), f(3, 1), f(4, 1)]];
    let pivots = row_reduce(&mut m).unwrap();
    assert_eq!(pivots, vec![0, 1]);
    assert_eq!(m, vec![vec![f(1, 1), f(0, 1), f(-5, 1)], vec![f(0, 1), f(1, 1), f(3, 1)]]);
}

#[test]
fn row_reduce_reports_an_elimination_step_that_leaves_i128() {
    let mut m = vec![vec![f(i128::MAX, 1), f(1, 1)], vec![f(1, 1), f(i128::MAX, 1)]];
    assert_eq!(row_reduce(&mut m), Err(GugenError::ArithmeticOverflow));
}

#[test]
fn null_vector_puts_one_at_the_free_column_and_negated_entries_at_the_pivots() {
    let m = vec![vec![f(1, 1), f(0, 1), f(2, 1)], vec![f(0, 1), f(1, 1), f(-3, 1)]];
    let v = null_vector(&m, &vec![0, 1], 2, 3).unwrap();
    assert_eq!(v, vec![f(-2, 1), f(3, 1), f(1, 1)]);
}

#[test]
fn null_vector_reports_an_entry_whose_negation_leaves_i128() {
    let m = vec![vec![f(1, 1), f(i128::MIN, 1)]];
    assert_eq!(null_vector(&m, &vec![0], 1, 2), Err(GugenError::ArithmeticOverflow));
}
