use raptorq::gf256::multiply;
use raptorq::solver::solve;
use raptorq::system::combine;

#[test]
fn identity_system_is_read_off() {
    let rows = vec![vec![1u8, 0, 5, 6], vec![0, 1, 7, 8]];
    assert_eq!(solve(rows, 2, 2), Some(vec![vec![5u8, 6], vec![7, 8]]));
}

#[test]
fn system_is_solved_by_elimination() {
    // x + y = 3, 2x + y = 7 over GF(256): 3x = 4, so x = 4 / 3.
    let rows = vec![vec![1u8, 1, 3], vec![2, 1, 7]];
    let solution = solve(rows, 2, 1).unwrap();
    let x = solution[0][0];
    let y = solution[1][0];
    assert_eq!(x ^ y, 3);
    assert_eq!(multiply(2, x) ^ y, 7);
    assert_eq!(multiply(3, x), 4);
}

#[test]
fn rows_may_come_in_any_order_and_in_excess() {
    let rows = vec![vec![0u8, 1, 7], vec![1, 1, 2], vec![1, 0, 5], vec![2, 3, 3]];
    assert_eq!(solve(rows, 2, 1), Some(vec![vec![5u8], vec![7]]));
}

#[test]
fn system_without_unique_solution_is_not_solved() {
    assert_eq!(solve(vec![vec![1u8, 1, 3], vec![1, 1, 3]], 2, 1), None);
    assert_eq!(solve(vec![vec![1u8, 1, 3]], 2, 1), None);
    assert_eq!(solve(vec![], 1, 1), None);
    assert_eq!(solve(vec![vec![0u8, 0, 1, 2], vec![0, 0, 3, 4]], 2, 2), None);
}

#[test]
fn contradictory_system_is_not_solved() {
    let rows = vec![vec![1u8, 0, 5], vec![0, 1, 7], vec![1, 1, 9]];
    assert_eq!(solve(rows, 2, 1), None);
}

#[test]
fn system_without_unknowns() {
    assert_eq!(solve(vec![], 0, 1), Some(vec![]));
    assert_eq!(solve(vec![vec![0u8]], 0, 1), Some(vec![]));
    assert_eq!(solve(vec![vec![1u8]], 0, 1), None);
}

#[test]
fn symbols_are_combined_by_coefficients() {
    let symbols = vec![vec![1u8, 2], vec![3, 4], vec![5, 6]];
    assert_eq!(combine(&vec![1, 0, 1], &symbols, 2), vec![1u8 ^ 5, 2 ^ 6]);
    assert_eq!(combine(&vec![0, 0, 0], &symbols, 2), vec![0u8, 0]);
    assert_eq!(
        combine(&vec![2, 3, 0], &symbols, 2),
        vec![multiply(2, 1) ^ multiply(3, 3), multiply(2, 2) ^ multiply(3, 4)]
    );
}
