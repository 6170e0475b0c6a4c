//! Pivot analysis and kernel-vector extraction for GF(2) matrices that have
//! been brought into row-echelon form.
//!
//! A matrix is a vector of rows of equal length. A row *leads* at the column
//! of its first nonzero entry; a column is a *pivot column* when some row
//! leads at it.

use crate::z2::Z2;
use vstd::prelude::*;

verus! {

/// Whether `j` is the column of the first nonzero entry of `row`.
pub open spec fn leads_at(row: Seq<Z2>, j: int) -> bool {
    &&& 0 <= j < row.len()
    &&& row[j].0
    &&& forall|t: int| 0 <= t < j ==> !row[t].0
}

/// Whether some row of `m` has its first nonzero entry in column `j`.
pub open spec fn is_pivot_col(m: Seq<Vec<Z2>>, j: int) -> bool {
    exists|i: int| 0 <= i < m.len() && leads_at(m[i]@, j)
}

proof fn lemma_leads_at_unique(row: Seq<Z2>, j1: int, j2: int)
    requires
        leads_at(row, j1),
        leads_at(row, j2),
    ensures
        j1 == j2,
{
    if j1 < j2 {
        assert(!row[j1].0);
    } else if j2 < j1 {
        assert(!row[j2].0);
    }
}

/// The column of the first nonzero entry of `row`, if any.
fn leading_column(row: &Vec<Z2>) -> (r: Option<usize>)
    ensures
        match r {
            Some(j) => leads_at(row@, j as int),
            None => forall|t: int| 0 <= t < row@.len() ==> !row@[t].0,
        },
{
    let mut j: usize = 0;
    while j < row.len()
        invariant
            j <= row@.len(),
            forall|t: int| 0 <= t < j ==> !row@[t].0,
        decreases row@.len() - j,
    {
        if row[j].0 {
            return Some(j);
        }
        j += 1;
    }
    None
}

/// Marks, for every column of `matrix`, whether it is a pivot column: entry
/// `j` of the result is true exactly when some row has its first nonzero
/// entry in column `j`.
pub fn find_all_pivots(matrix: &Vec<Vec<Z2>>) -> (r: Vec<bool>)
    requires
        matrix@.len() > 0,
        forall|i: int| 0 <= i < matrix@.len() ==> (#[trigger] matrix@[i])@.len() == matrix@[0]@.len(),
    ensures
        r@.len() == matrix@[0]@.len(),
        forall|j: int| 0 <= j < r@.len() ==> (r@[j] <==> is_pivot_col(matrix@, j)),
{
    let cols = matrix[0].len();
    let rows = matrix.len();
    let mut pivots: Vec<bool> = Vec::new();
    while pivots.len() < cols
        invariant
            pivots@.len() <= cols,
            forall|t: int| 0 <= t < pivots@.len() ==> !pivots@[t],
        decreases cols - pivots@.len(),
    {
        pivots.push(false);
    }
    let mut i: usize = 0;
    while i < rows
        invariant
            i <= rows,
            rows == matrix@.len(),
            pivots@.len() == cols,
            cols == matrix@[0]@.len(),
            forall|t: int|
                0 <= t < matrix@.len() ==> (#[trigger] matrix@[t])@.len() == matrix@[0]@.len(),
            forall|j: int|
                0 <= j < cols ==> (pivots@[j] <==> exists|t: int|
                    0 <= t < i && leads_at((#[trigger] matrix@[t])@, j)),
        decreases rows - i,
    {
        match leading_column(&matrix[i]) {
            Some(j) => {
                let ghost old_pivots = pivots@;
                pivots[j] = true;
                proof {
                    assert forall|j2: int|
                        0 <= j2 < cols implies (pivots@[j2] <==> exists|t: int|
                        0 <= t < i + 1 && leads_at((#[trigger] matrix@[t])@, j2)) by {
                        if j2 == j {
                            assert(leads_at(matrix@[i as int]@, j2));
                        } else {
                            if leads_at(matrix@[i as int]@, j2) {
                                lemma_leads_at_unique(matrix@[i as int]@, j2, j as int);
                            }
                            assert(pivots@[j2] == old_pivots[j2]);
                        }
                    }
                }
            },
            None => {
                proof {
                    assert forall|j2: int|
                        0 <= j2 < cols implies (pivots@[j2] <==> exists|t: int|
                        0 <= t < i + 1 && leads_at((#[trigger] matrix@[t])@, j2)) by {
                        assert(!leads_at(matrix@[i as int]@, j2));
                    }
                }
            },
        }
        i += 1;
    }
    pivots
}

/// The first index `i` at which the diagonal entry `matrix[i][i]` is zero,
/// if any; for a matrix with more columns than rows whose whole diagonal is
/// nonzero, the number of rows. For a square matrix whose whole diagonal is
/// nonzero there is no such index and the result is `None`.
pub fn find_first_non_pivot(matrix: &Vec<Vec<Z2>>) -> (r: Option<usize>)
    requires
        matrix@.len() > 0,
        forall|i: int| 0 <= i < matrix@.len() ==> (#[trigger] matrix@[i])@.len() == matrix@[0]@.len(),
        matrix@.len() <= matrix@[0]@.len(),
    ensures
        match r {
            Some(i) => {
                &&& i <= matrix@.len()
                &&& forall|t: int| 0 <= t < i ==> (#[trigger] matrix@[t])@[t].0
                &&& i < matrix@.len() ==> !matrix@[i as int]@[i as int].0
                &&& i == matrix@.len() ==> matrix@.len() < matrix@[0]@.len()
            },
            None => {
                &&& forall|t: int| 0 <= t < matrix@.len() ==> (#[trigger] matrix@[t])@[t].0
                &&& matrix@.len() == matrix@[0]@.len()
            },
        },
{
    let rows = matrix.len();
    let mut i: usize = 0;
    while i < rows
        invariant
            i <= rows,
            rows == matrix@.len(),
            forall|t: int|
                0 <= t < matrix@.len() ==> (#[trigger] matrix@[t])@.len() == matrix@[0]@.len(),
            matrix@.len() <= matrix@[0]@.len(),
            forall|t: int| 0 <= t < i ==> (#[trigger] matrix@[t])@[t].0,
        decreases rows - i,
    {
        if !matrix[i][i].0 {
            return Some(i);
        }
        i += 1;
    }
    if rows < matrix[0].len() {
        Some(rows)
    } else {
        None
    }
}

/// The parity of the entries of `row` at the positions listed in `ones`:
/// true when an odd number of the listed entries (counted with the
/// multiplicity of their position in the list) is nonzero.
pub open spec fn ones_parity(row: Seq<Z2>, ones: Seq<int>) -> bool
    decreases ones.len(),
{
    if ones.len() == 0 {
        false
    } else {
        row[ones[0]].0 != ones_parity(row, ones.drop_first())
    }
}

/// The state reached by back substitution over the last `i` rows of `m`,
/// walking rows from the bottom up. Processing a row whose listed positions
/// have odd parity sets that row's entry of the solution and appends the
/// row index to the list of set positions.
pub open spec fn back_substituted(
    m: Seq<Vec<Z2>>,
    sol: Seq<Z2>,
    ones: Seq<int>,
    i: nat,
) -> (Seq<Z2>, Seq<int>)
    decreases i,
{
    if i == 0 {
        (sol, ones)
    } else {
        let r = (i - 1) as int;
        if ones_parity(m[r]@, ones) {
            back_substituted(m, sol.update(r, Z2(true)), ones.push(r), (i - 1) as nat)
        } else {
            back_substituted(m, sol, ones, (i - 1) as nat)
        }
    }
}

/// The first non-pivot column of `m` at or after column `j`, or the number
/// of rows of `m` when every column from `j` on is a pivot column.
pub open spec fn first_non_pivot_from(m: Seq<Vec<Z2>>, cols: int, j: int) -> int
    decreases cols - j
    when j <= cols
{
    if j >= cols {
        m.len() as int
    } else if !is_pivot_col(m, j) {
        j
    } else {
        first_non_pivot_from(m, cols, j + 1)
    }
}

/// The first non-pivot column of `m`, or its number of rows when every one
/// of its `cols` columns is a pivot column.
pub open spec fn first_non_pivot_col(m: Seq<Vec<Z2>>, cols: int) -> int {
    first_non_pivot_from(m, cols, 0)
}

/// The candidate kernel vector that `find_a_nonzero_solution` extracts from
/// `m`: back substitution applied to the unit vector at the first non-pivot
/// column.
pub open spec fn extracted_solution(m: Seq<Vec<Z2>>, size: nat) -> Seq<Z2> {
    let fnp = first_non_pivot_col(m, m[0]@.len() as int);
    back_substituted(
        m,
        Seq::new(size, |t: int| Z2(false)).update(fnp, Z2(true)),
        seq![fnp],
        m.len(),
    ).0
}

proof fn lemma_first_non_pivot_from_reaches(m: Seq<Vec<Z2>>, cols: int, j: int, p: int)
    requires
        0 <= j <= p <= cols,
        forall|t: int| j <= t < p ==> is_pivot_col(m, t),
        p < cols ==> !is_pivot_col(m, p),
    ensures
        first_non_pivot_from(m, cols, j) == if p < cols {
            p
        } else {
            m.len() as int
        },
    decreases p - j,
{
    if j < p {
        lemma_first_non_pivot_from_reaches(m, cols, j + 1, p);
    }
}

proof fn lemma_back_substituted_len(m: Seq<Vec<Z2>>, sol: Seq<Z2>, ones: Seq<int>, i: nat)
    requires
        i <= sol.len(),
    ensures
        back_substituted(m, sol, ones, i).0.len() == sol.len(),
    decreases i,
{
    if i > 0 {
        let r = (i - 1) as int;
        if ones_parity(m[r]@, ones) {
            lemma_back_substituted_len(m, sol.update(r, Z2(true)), ones.push(r), (i - 1) as nat);
        } else {
            lemma_back_substituted_len(m, sol, ones, (i - 1) as nat);
        }
    }
}

proof fn lemma_back_substituted_keeps_ones(
    m: Seq<Vec<Z2>>,
    sol: Seq<Z2>,
    ones: Seq<int>,
    i: nat,
    t: int,
)
    requires
        i <= sol.len(),
        0 <= t < sol.len(),
        sol[t].0,
    ensures
        back_substituted(m, sol, ones, i).0[t].0,
    decreases i,
{
    if i > 0 {
        let r = (i - 1) as int;
        if ones_parity(m[r]@, ones) {
            lemma_back_substituted_keeps_ones(
                m,
                sol.update(r, Z2(true)),
                ones.push(r),
                (i - 1) as nat,
                t,
            );
        } else {
            lemma_back_substituted_keeps_ones(m, sol, ones, (i - 1) as nat, t);
        }
    }
}

/// The index of the first `false` entry of `pivots`, or the length of
/// `pivots` when every entry is `true`.
fn position_of_first_false(pivots: &Vec<bool>) -> (r: usize)
    ensures
        r <= pivots@.len(),
        forall|t: int| 0 <= t < r ==> pivots@[t],
        r < pivots@.len() ==> !pivots@[r as int],
{
    let mut j: usize = 0;
    while j < pivots.len()
        invariant
            j <= pivots@.len(),
            forall|t: int| 0 <= t < j ==> pivots@[t],
        decreases pivots@.len() - j,
    {
        if !pivots[j] {
            return j;
        }
        j += 1;
    }
    j
}

/// Extracts a nonzero member of the kernel of a row-echelon GF(2) matrix:
/// the unit vector at the first non-pivot column, closed under back
/// substitution against the rows from the bottom up. Returns `None` when
/// the first non-pivot column (or, if every column is a pivot column, the
/// number of rows) does not fall within the requested solution size; the
/// returned vector is never the zero vector.
///
/// For a matrix in row-echelon shape through its first non-pivot column
/// the result lies in the kernel of the matrix
/// (`lemma_extracted_solution_in_kernel`).
pub fn find_a_nonzero_solution(matrix: &Vec<Vec<Z2>>, size_of_solution: usize) -> (r: Option<
    Vec<Z2>,
>)
    requires
        matrix@.len() > 0,
        forall|i: int| 0 <= i < matrix@.len() ==> (#[trigger] matrix@[i])@.len() == matrix@[0]@.len(),
        matrix@.len() <= size_of_solution,
        size_of_solution <= matrix@[0]@.len(),
    ensures
        r is Some <==> first_non_pivot_col(matrix@, matrix@[0]@.len() as int) < size_of_solution,
        r matches Some(s) ==> s@ == extracted_solution(matrix@, size_of_solution as nat),
        r matches Some(s) ==> s@.len() == size_of_solution && s@[first_non_pivot_col(
            matrix@,
            matrix@[0]@.len() as int,
        )].0,
{
    let rows = matrix.len();
    let cols = matrix[0].len();
    let pivots = find_all_pivots(matrix);
    let pos = position_of_first_false(&pivots);
    let first_non_pivot = if pos < cols {
        pos
    } else {
        rows
    };
    proof {
        lemma_first_non_pivot_from_reaches(matrix@, cols as int, 0, pos as int);
    }
    if first_non_pivot >= size_of_solution {
        return None;
    }
    let ghost fnp = first_non_pivot_col(matrix@, cols as int);

    let mut solution: Vec<Z2> = Vec::new();
    while solution.len() < size_of_solution
        invariant
            solution@.len() <= size_of_solution,
            forall|t: int| 0 <= t < solution@.len() ==> solution@[t] == Z2(false),
        decreases size_of_solution - solution@.len(),
    {
        solution.push(Z2(false));
    }
    solution[first_non_pivot] = Z2(true);
    let mut ones: Vec<usize> = Vec::new();
    ones.push(first_non_pivot);

    proof {
        assert(solution@ =~= Seq::new(size_of_solution as nat, |t: int| Z2(false)).update(
            fnp,
            Z2(true),
        ));
        assert(ones@.map_values(|x: usize| x as int) =~= seq![fnp]);
    }
    let ghost target = back_substituted(
        matrix@,
        solution@,
        ones@.map_values(|x: usize| x as int),
        rows as nat,
    );

    let mut i: usize = rows;
    while i > 0
        invariant
            i <= rows,
            rows == matrix@.len(),
            cols == matrix@[0]@.len(),
            forall|t: int|
                0 <= t < matrix@.len() ==> (#[trigger] matrix@[t])@.len() == matrix@[0]@.len(),
            rows <= size_of_solution <= cols,
            solution@.len() == size_of_solution,
            forall|t: int| 0 <= t < ones@.len() ==> ones@[t] < size_of_solution,
            back_substituted(
                matrix@,
                solution@,
                ones@.map_values(|x: usize| x as int),
                i as nat,
            ) == target,
        decreases i,
    {
        i -= 1;
        let ghost pre_sol = solution@;
        let ghost pre_ones = ones@.map_values(|x: usize| x as int);
        let row = &matrix[i];
        let mut sum = false;
        let mut t: usize = 0;
        proof {
            assert(pre_ones.skip(0) =~= pre_ones);
        }
        while t < ones.len()
            invariant
                t <= ones@.len(),
                ones@.map_values(|x: usize| x as int) == pre_ones,
                forall|u: int| 0 <= u < ones@.len() ==> ones@[u] < size_of_solution,
                row@.len() == cols,
                size_of_solution <= cols,
                ones_parity(row@, pre_ones) == (sum != ones_parity(row@, pre_ones.skip(t as int))),
            decreases ones@.len() - t,
        {
            proof {
                assert(pre_ones.skip(t as int)[0] == pre_ones[t as int]);
                assert(pre_ones.skip(t as int).drop_first() =~= pre_ones.skip(t as int + 1));
            }
            if row[ones[t]].0 {
                sum = !sum;
            }
            t += 1;
        }
        proof {
            assert(pre_ones.skip(ones@.len() as int) =~= Seq::<int>::empty());
            assert(sum == ones_parity(matrix@[i as int]@, pre_ones));
        }
        if sum {
            solution[i] = Z2(true);
            ones.push(i);
            proof {
                assert(solution@ =~= pre_sol.update(i as int, Z2(true)));
                assert(ones@.map_values(|x: usize| x as int) =~= pre_ones.push(i as int));
            }
        }
        proof {
            assert(back_substituted(
                matrix@,
                solution@,
                ones@.map_values(|x: usize| x as int),
                i as nat,
            ) == back_substituted(matrix@, pre_sol, pre_ones, (i + 1) as nat));
        }
    }
    proof {
        assert(back_substituted(
            matrix@,
            solution@,
            ones@.map_values(|x: usize| x as int),
            0,
        ) == (solution@, ones@.map_values(|x: usize| x as int)));
        lemma_back_substituted_len(
            matrix@,
            Seq::new(size_of_solution as nat, |t: int| Z2(false)).update(fnp, Z2(true)),
            seq![fnp],
            rows as nat,
        );
        lemma_back_substituted_keeps_ones(
            matrix@,
            Seq::new(size_of_solution as nat, |t: int| Z2(false)).update(fnp, Z2(true)),
            seq![fnp],
            rows as nat,
            fnp,
        );
    }
    Some(solution)
}

/// The parity of `sum_j row[j] * x[j]` over the first `x.len()` entries of
/// `row`: true when an odd number of positions carries a nonzero entry in
/// both `row` and `x`. A vector `x` lies in the kernel of a matrix exactly
/// when this parity is even for every row.
pub open spec fn kernel_parity(row: Seq<Z2>, x: Seq<Z2>) -> bool
    decreases x.len(),
{
    if x.len() == 0 {
        false
    } else {
        kernel_parity(row, x.drop_last()) != (row[x.len() - 1].0 && x.last().0)
    }
}

/// Row-echelon shape through column `fnp`: every row before `fnp` has its
/// first nonzero entry exactly at its own index, and every row from `fnp`
/// on is zero on all columns up to and including `fnp`. A matrix brought
/// into row-echelon form whose first `fnp` columns are pivot columns has
/// this shape.
pub open spec fn echelon_through(m: Seq<Vec<Z2>>, fnp: int) -> bool {
    &&& forall|r: int| 0 <= r < m.len() && r < fnp ==> leads_at((#[trigger] m[r])@, r)
    &&& forall|r: int, j: int|
        fnp <= r < m.len() && 0 <= j <= fnp ==> !((#[trigger] m[r]@[j]).0)
}

proof fn lemma_kernel_parity_all_false(row: Seq<Z2>, x: Seq<Z2>)
    requires
        forall|p: int| 0 <= p < x.len() ==> !((#[trigger] x[p]).0),
    ensures
        !kernel_parity(row, x),
    decreases x.len(),
{
    if x.len() > 0 {
        assert(forall|p: int| 0 <= p < x.len() - 1 ==> x.drop_last()[p] == x[p]);
        lemma_kernel_parity_all_false(row, x.drop_last());
    }
}

proof fn lemma_kernel_parity_update(row: Seq<Z2>, x: Seq<Z2>, p: int)
    requires
        0 <= p < x.len(),
        !x[p].0,
    ensures
        kernel_parity(row, x.update(p, Z2(true))) == (kernel_parity(row, x) != row[p].0),
    decreases x.len(),
{
    let xu = x.update(p, Z2(true));
    if p == x.len() - 1 {
        assert(xu.drop_last() =~= x.drop_last());
    } else {
        assert(xu.drop_last() =~= x.drop_last().update(p, Z2(true)));
        assert(xu.last() == x.last());
        lemma_kernel_parity_update(row, x.drop_last(), p);
    }
}

/// Whether `ones` lists exactly the positions of the nonzero entries of
/// `sol`, each once.
spec fn coupled(sol: Seq<Z2>, ones: Seq<int>) -> bool {
    &&& forall|k: int| 0 <= k < ones.len() ==> 0 <= #[trigger] ones[k] < sol.len()
    &&& forall|k1: int, k2: int| 0 <= k1 < k2 < ones.len() ==> ones[k1] != ones[k2]
    &&& forall|p: int| 0 <= p < sol.len() ==> ((#[trigger] sol[p]).0 <==> ones.contains(p))
}

proof fn lemma_parity_equivalence(row: Seq<Z2>, sol: Seq<Z2>, ones: Seq<int>)
    requires
        coupled(sol, ones),
    ensures
        ones_parity(row, ones) == kernel_parity(row, sol),
    decreases ones.len(),
{
    if ones.len() == 0 {
        assert(forall|p: int| 0 <= p < sol.len() ==> !((#[trigger] sol[p]).0));
        lemma_kernel_parity_all_false(row, sol);
    } else {
        let p = ones[0];
        assert(ones.contains(p));
        let sol2 = sol.update(p, Z2(false));
        let ones2 = ones.drop_first();
        assert(forall|k: int| 0 <= k < ones2.len() ==> ones2[k] == ones[k + 1]);
        assert forall|q: int| 0 <= q < sol2.len() implies ((#[trigger] sol2[q]).0
            <==> ones2.contains(q)) by {
            if q == p {
                if ones2.contains(q) {
                    let k = choose|k: int| 0 <= k < ones2.len() && ones2[k] == q;
                    assert(ones[k + 1] == ones[0]);
                }
            } else {
                if ones.contains(q) {
                    let k = choose|k: int| 0 <= k < ones.len() && ones[k] == q;
                    assert(k != 0);
                    assert(ones2[k - 1] == q);
                }
                if ones2.contains(q) {
                    let k = choose|k: int| 0 <= k < ones2.len() && ones2[k] == q;
                    assert(ones[k + 1] == q);
                }
            }
        }
        lemma_parity_equivalence(row, sol2, ones2);
        assert(sol =~= sol2.update(p, Z2(true)));
        lemma_kernel_parity_update(row, sol2, p);
    }
}

proof fn lemma_first_non_pivot_from_nonneg(m: Seq<Vec<Z2>>, cols: int, j: int)
    requires
        0 <= j <= cols,
    ensures
        first_non_pivot_from(m, cols, j) >= 0,
    decreases cols - j,
{
    if j < cols && is_pivot_col(m, j) {
        lemma_first_non_pivot_from_nonneg(m, cols, j + 1);
    }
}

proof fn lemma_back_substituted_kernel(
    m: Seq<Vec<Z2>>,
    sol: Seq<Z2>,
    ones: Seq<int>,
    i: nat,
    fnp: int,
)
    requires
        i <= m.len(),
        m.len() <= sol.len(),
        0 <= fnp < sol.len(),
        sol[fnp].0,
        echelon_through(m, fnp),
        coupled(sol, ones),
        forall|p: int| 0 <= p < sol.len() && (#[trigger] sol[p]).0 ==> p == fnp || (i <= p && p < fnp),
        forall|r: int| i <= r < m.len() ==> !kernel_parity((#[trigger] m[r])@, sol),
    ensures
        forall|r: int|
            0 <= r < m.len() ==> !kernel_parity((#[trigger] m[r])@, back_substituted(m, sol, ones, i).0),
    decreases i,
{
    if i > 0 {
        let r0 = (i - 1) as int;
        let s = ones_parity(m[r0]@, ones);
        lemma_parity_equivalence(m[r0]@, sol, ones);
        if r0 >= fnp {
            let base = Seq::new(sol.len(), |t: int| Z2(false));
            assert(sol =~= base.update(fnp, Z2(true)));
            lemma_kernel_parity_all_false(m[r0]@, base);
            lemma_kernel_parity_update(m[r0]@, base, fnp);
            assert(!(m[r0]@[fnp].0));
            assert(!s);
            lemma_back_substituted_kernel(m, sol, ones, (i - 1) as nat, fnp);
        } else {
            if s {
                let sol2 = sol.update(r0, Z2(true));
                let ones2 = ones.push(r0);
                assert(!sol[r0].0);
                assert(!ones.contains(r0));
                assert forall|q: int| 0 <= q < sol2.len() implies ((#[trigger] sol2[q]).0
                    <==> ones2.contains(q)) by {
                    if q == r0 {
                        assert(ones2[ones.len() as int] == r0);
                    } else {
                        if ones.contains(q) {
                            let k = choose|k: int| 0 <= k < ones.len() && ones[k] == q;
                            assert(ones2[k] == q);
                        }
                        if ones2.contains(q) {
                            let k = choose|k: int| 0 <= k < ones2.len() && ones2[k] == q;
                            assert(k < ones.len());
                            assert(ones[k] == q);
                        }
                    }
                }
                assert(coupled(sol2, ones2));
                assert(m[r0]@[r0].0);
                assert forall|r: int| i - 1 <= r < m.len() implies !kernel_parity(
                    (#[trigger] m[r])@,
                    sol2,
                ) by {
                    lemma_kernel_parity_update(m[r]@, sol, r0);
                    if r == r0 {
                    } else {
                        if r < fnp {
                            assert(leads_at(m[r]@, r));
                            assert(!(m[r]@[r0].0));
                        } else {
                            assert(!(m[r]@[r0].0));
                        }
                    }
                }
                lemma_back_substituted_kernel(m, sol2, ones2, (i - 1) as nat, fnp);
            } else {
                lemma_back_substituted_kernel(m, sol, ones, (i - 1) as nat, fnp);
            }
        }
    }
}

/// For a matrix in row-echelon shape through its first non-pivot column,
/// the vector that `find_a_nonzero_solution` returns lies in the kernel of
/// the matrix: every row has even parity against it, so the positions it
/// selects name a subset of relation rows whose product has only even
/// exponents.
pub proof fn lemma_extracted_solution_in_kernel(m: Seq<Vec<Z2>>, size: nat)
    requires
        m.len() > 0,
        forall|r: int| 0 <= r < m.len() ==> (#[trigger] m[r])@.len() == m[0]@.len(),
        m.len() <= size,
        size <= m[0]@.len(),
        first_non_pivot_col(m, m[0]@.len() as int) < size,
        echelon_through(m, first_non_pivot_col(m, m[0]@.len() as int)),
    ensures
        forall|r: int|
            0 <= r < m.len() ==> !kernel_parity((#[trigger] m[r])@, extracted_solution(m, size)),
{
    let cols = m[0]@.len() as int;
    let fnp = first_non_pivot_col(m, cols);
    lemma_first_non_pivot_from_nonneg(m, cols, 0);
    let init = Seq::new(size, |t: int| Z2(false)).update(fnp, Z2(true));
    let start = seq![fnp];
    assert forall|p: int| 0 <= p < init.len() implies ((#[trigger] init[p]).0
        <==> start.contains(p)) by {
        if p == fnp {
            assert(start[0] == fnp);
        } else {
            if start.contains(p) {
                let k = choose|k: int| 0 <= k < start.len() && start[k] == p;
                assert(k == 0);
            }
        }
    }
    assert(coupled(init, start));
    lemma_back_substituted_kernel(m, init, start, m.len(), fnp);
}

} // verus!
