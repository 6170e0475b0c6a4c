use lattice_toolkit::elimination::{find_a_nonzero_solution, find_all_pivots, find_first_non_pivot};
use lattice_toolkit::z2::Z2;

fn matrix_of(rows: &[&[bool]]) -> Vec<Vec<Z2>> {
    rows.iter()
        .map(|row| row.iter().map(|&b| Z2(b)).collect())
        .collect()
}

fn assert_in_kernel(matrix: &Vec<Vec<Z2>>, solution: &Vec<Z2>) {
    for row in matrix {
        let mut parity = false;
        for (entry, x) in row.iter().zip(solution.iter()) {
            if entry.0 && x.0 {
                parity = !parity;
            }
        }
        assert!(!parity, "solution is not in the kernel");
    }
}

#[test]
fn pivots_of_echelon_matrix() {
    let m = matrix_of(&[&[true, false, true], &[false, true, true]]);
    assert_eq!(find_all_pivots(&m), vec![true, true, false]);
}

#[test]
fn pivots_skip_zero_rows() {
    let m = matrix_of(&[
        &[false, true, false],
        &[false, false, false],
        &[false, false, true],
    ]);
    assert_eq!(find_all_pivots(&m), vec![false, true, true]);
}

#[test]
fn first_non_pivot_of_full_rank_square() {
    let m = matrix_of(&[
        &[true, false, false],
        &[false, true, false],
        &[false, false, true],
    ]);
    assert_eq!(find_first_non_pivot(&m), None);
}

#[test]
fn first_non_pivot_at_zero_diagonal() {
    let m = matrix_of(&[
        &[true, true, false],
        &[false, false, true],
        &[false, false, true],
    ]);
    assert_eq!(find_first_non_pivot(&m), Some(1));
}

#[test]
fn first_non_pivot_of_wide_matrix() {
    let m = matrix_of(&[&[true, false, true], &[false, true, true]]);
    assert_eq!(find_first_non_pivot(&m), Some(2));
}

#[test]
fn nonzero_solution_of_echelon_matrix() {
    let m = matrix_of(&[&[true, false, true], &[false, true, true]]);
    let solution = find_a_nonzero_solution(&m, 3).unwrap();
    assert_eq!(solution, vec![Z2(true), Z2(true), Z2(true)]);
    assert!(solution.iter().any(|x| x.0));
    assert_in_kernel(&m, &solution);
}

#[test]
fn nonzero_solution_with_untouched_column() {
    let m = matrix_of(&[
        &[true, false, false, true],
        &[false, true, false, true],
        &[false, false, true, false],
    ]);
    let solution = find_a_nonzero_solution(&m, 4).unwrap();
    assert_eq!(solution, vec![Z2(true), Z2(true), Z2(false), Z2(true)]);
    assert_in_kernel(&m, &solution);
}

#[test]
fn nonzero_solution_selects_square_subset() {
    // Parity matrix of the odd prime exponents of 34, 3247, 142, 1458 and
    // 1207 (rows for the primes 2, 17, 191 and 71, one column per number),
    // brought into row-echelon form by hand. The kernel vector picks 34,
    // 142 and 1207, whose product 34 * 142 * 1207 is a perfect square.
    let m = matrix_of(&[
        &[true, false, true, true, false],
        &[false, true, true, true, true],
        &[false, false, true, true, true],
        &[false, false, false, true, false],
    ]);
    let solution = find_a_nonzero_solution(&m, 5).unwrap();
    assert_eq!(
        solution,
        vec![Z2(true), Z2(false), Z2(true), Z2(false), Z2(true)]
    );
    assert_in_kernel(&m, &solution);
}

#[test]
fn no_solution_within_size_for_identity() {
    let m = matrix_of(&[&[true, false], &[false, true]]);
    assert_eq!(find_a_nonzero_solution(&m, 2), None);
}
