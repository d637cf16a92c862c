//! Construction and validation of the Whittaker-Henderson penalty operator.
//!
//! The order-`d` difference matrix `D` has `n - d` rows; row `r` carries the
//! alternating-sign stencil obtained by first-differencing a unit impulse `d`
//! times, placed at columns `r..=r+d`. The penalty Gram matrix is
//! `A = D' * D`; the caller forms `I + lambda * A` and solves.

use vstd::prelude::*;

use crate::matrix::Matrix;

verus! {

/// Largest differencing order for which every stencil coefficient and every
/// entry of the Gram matrix `D' * D` provably fits in `i128`, whatever the
/// sample count. A machine limit, not a property of the smoother.
pub const MAX_ORDER: usize = 31;

/// The ways a smoothing request can fail before or during the solve.
#[derive(Clone, Copy, Debug, PartialEq, Eq, Structural)]
pub enum SmootherError {
    /// The differencing order is at least the sample count, or the input is
    /// empty: the difference operator cannot be constructed.
    InvalidOrder,
    /// A sample is not a finite number, or the penalty strength is negative.
    InvalidInput,
    /// The linear system could not be solved numerically.
    NumericalFailure,
}

/// Validation of a smoothing request, the first step of the smoothing
/// facade. The dimensions are judged here: the input must be non-empty and
/// `order` strictly below the sample count, else `InvalidOrder`. Whether
/// every sample is a finite number and whether the penalty strength is
/// finite and non-negative are floating-point questions, so the caller
/// passes those two verdicts in; a `false` yields `InvalidInput`.
pub fn validate_request(
    n: usize,
    order: usize,
    samples_finite: bool,
    lambda_valid: bool,
) -> (r: Result<(), SmootherError>)
    ensures
        r is Ok <==> n > 0 && order < n && samples_finite && lambda_valid,
        r == Result::<(), SmootherError>::Err(SmootherError::InvalidOrder) <==> n == 0 || order
            >= n,
        r == Result::<(), SmootherError>::Err(SmootherError::InvalidInput) <==> n > 0 && order < n
            && !(samples_finite && lambda_valid),
{
    if n == 0 || order >= n {
        Err(SmootherError::InvalidOrder)
    } else if !samples_finite || !lambda_valid {
        Err(SmootherError::InvalidInput)
    } else {
        Ok(())
    }
}

/// 2 to the power `e`.
pub open spec fn two_pow(e: nat) -> nat
    decreases e,
{
    if e == 0 {
        1
    } else {
        2 * two_pow((e - 1) as nat)
    }
}

/// The binomial coefficient C(n, k), by Pascal's rule; 0 when k > n.
pub open spec fn binom(n: nat, k: nat) -> nat
    decreases n,
{
    if k == 0 {
        1
    } else if n == 0 {
        0
    } else {
        binom((n - 1) as nat, (k - 1) as nat) + binom((n - 1) as nat, k)
    }
}

/// C(n, k) with sign (-1)^k.
pub open spec fn signed_binom(n: nat, k: nat) -> int {
    if k % 2 == 0 {
        binom(n, k) as int
    } else {
        -(binom(n, k) as int)
    }
}

/// Coefficient `j` of the order-`d` difference stencil:
/// (-1)^(d-j) * C(d, d-j). For d = 3 this reads [-1, 3, -3, 1].
pub open spec fn stencil_val(d: nat, j: nat) -> int
    recommends
        j <= d,
{
    signed_binom(d, (d - j) as nat)
}

/// Coefficient `j` of the impulse array after `i` of the `d` differencing
/// passes. The array starts as a unit impulse of width 2d+1 centred at `d`
/// and loses one entry per pass.
pub open spec fn impulse_diff(d: nat, i: nat, j: nat) -> int {
    if j <= d && d <= i + j {
        signed_binom(i, (d - j) as nat)
    } else {
        0
    }
}

proof fn lemma_binom_zero(n: nat, k: nat)
    requires
        k > n,
    ensures
        binom(n, k) == 0,
    decreases n,
{
    if n > 0 {
        lemma_binom_zero((n - 1) as nat, (k - 1) as nat);
        lemma_binom_zero((n - 1) as nat, k);
    }
}

proof fn lemma_binom_pos(n: nat, k: nat)
    requires
        k <= n,
    ensures
        binom(n, k) >= 1,
    decreases n,
{
    if k > 0 {
        lemma_binom_pos((n - 1) as nat, (k - 1) as nat);
    }
}

proof fn lemma_two_pow_pos(e: nat)
    ensures
        two_pow(e) >= 1,
    decreases e,
{
    if e > 0 {
        lemma_two_pow_pos((e - 1) as nat);
    }
}

proof fn lemma_two_pow_mono(a: nat, b: nat)
    requires
        a <= b,
    ensures
        two_pow(a) <= two_pow(b),
    decreases b,
{
    if a < b {
        lemma_two_pow_mono(a, (b - 1) as nat);
        lemma_two_pow_pos((b - 1) as nat);
    }
}

proof fn lemma_binom_le_two_pow(n: nat, k: nat)
    ensures
        binom(n, k) <= two_pow(n),
    decreases n,
{
    if k == 0 {
        lemma_two_pow_pos(n);
    } else if n > 0 {
        lemma_binom_le_two_pow((n - 1) as nat, (k - 1) as nat);
        lemma_binom_le_two_pow((n - 1) as nat, k);
    }
}

proof fn lemma_two_pow_31()
    ensures
        two_pow(31) == 0x8000_0000,
{
    reveal_with_fuel(two_pow, 32);
}

/// Every intermediate impulse coefficient is a signed binomial of the pass
/// count, so it is bounded by 2^i.
proof fn lemma_impulse_diff_bound(d: nat, i: nat, j: nat)
    requires
        i <= 31,
    ensures
        -0x8000_0000 <= impulse_diff(d, i, j) <= 0x8000_0000,
{
    if j <= d && d <= i + j {
        let t = (d - j) as nat;
        lemma_binom_le_two_pow(i, t);
        lemma_two_pow_mono(i, 31);
        lemma_two_pow_31();
    }
}

/// One differencing pass maps the coefficient array exactly as Pascal's rule
/// maps signed binomials: new[j] == old[j] - old[j + 1].
proof fn lemma_impulse_diff_step(d: nat, i: nat, j: nat)
    requires
        i < d,
    ensures
        impulse_diff(d, (i + 1) as nat, j) == impulse_diff(d, i, j) - impulse_diff(
            d,
            i,
            (j + 1) as nat,
        ),
{
    if j < d {
        let t = (d - j) as nat;
        assert(t >= 1);
        assert(binom((i + 1) as nat, t) == binom(i, (t - 1) as nat) + binom(i, t));
        if t > i + 1 {
            lemma_binom_zero(i, t);
            lemma_binom_zero(i, (t - 1) as nat);
        } else if t == i + 1 {
            lemma_binom_zero(i, t);
        }
        if t % 2 == 0 {
            assert((t - 1) as nat % 2 == 1);
        } else {
            assert((t - 1) as nat % 2 == 0);
        }
    }
}

/// One first-differencing pass over a coefficient array:
/// `r[j] == c[j] - c[j + 1]`.
fn vec_diff(c: &Vec<i128>) -> (r: Vec<i128>)
    requires
        c@.len() >= 1,
        forall|j: int| 0 <= j < c@.len() ==> -0x8000_0000 <= #[trigger] c@[j] <= 0x8000_0000,
    ensures
        r@.len() == c@.len() - 1,
        forall|j: int| 0 <= j < r@.len() ==> r@[j] == c@[j] - c@[j + 1],
{
    let n: usize = c.len();
    let mut r: Vec<i128> = Vec::new();
    let mut j: usize = 0;
    while j + 1 < n
        invariant
            n == c@.len(),
            1 <= n,
            j + 1 <= n,
            r@.len() == j,
            forall|k: int| 0 <= k < j ==> r@[k] == c@[k] - c@[k + 1],
            forall|k: int| 0 <= k < c@.len() ==> -0x8000_0000 <= #[trigger] c@[k] <= 0x8000_0000,
        decreases n - j,
    {
        let v: i128 = c[j] - c[j + 1];
        r.push(v);
        j = j + 1;
    }
    r
}

/// The order-`order` finite-difference stencil, of length `order + 1`,
/// obtained by first-differencing a unit impulse `order` times.
///
/// The result holds the alternating-sign binomial coefficients
/// (-1)^(order-j) * C(order, order-j); for order 3 that is [-1, 3, -3, 1].
pub fn difference_stencil(order: usize) -> (r: Vec<i128>)
    requires
        order <= MAX_ORDER,
    ensures
        r@.len() == order + 1,
        forall|j: int| 0 <= j < r@.len() ==> r@[j] == stencil_val(order as nat, j as nat),
        forall|j: int| 0 <= j < r@.len() ==> -0x8000_0000 <= #[trigger] r@[j] <= 0x8000_0000,
{
    let width: usize = 2 * order + 1;
    let mut coeffs: Vec<i128> = Vec::new();
    for k in 0..width
        invariant
            width == 2 * order + 1,
            coeffs@.len() == k,
            forall|j: int| 0 <= j < k ==> coeffs@[j] == (if j == order { 1int } else { 0int }),
    {
        coeffs.push(if k == order { 1 } else { 0 });
    }
    assert forall|j: int| 0 <= j < coeffs@.len() implies coeffs@[j] == impulse_diff(
        order as nat,
        0,
        j as nat,
    ) by {
        assert(binom(0, 0) == 1);
    }
    for step in 0..order
        invariant
            order <= MAX_ORDER,
            coeffs@.len() == 2 * order + 1 - step,
            forall|j: int|
                0 <= j < coeffs@.len() ==> coeffs@[j] == impulse_diff(
                    order as nat,
                    step as nat,
                    j as nat,
                ),
    {
        proof {
            assert forall|j: int| 0 <= j < coeffs@.len() implies -0x8000_0000 <= #[trigger] coeffs@[j]
                <= 0x8000_0000 by {
                lemma_impulse_diff_bound(order as nat, step as nat, j as nat);
            }
        }
        let next: Vec<i128> = vec_diff(&coeffs);
        proof {
            assert forall|j: int| 0 <= j < next@.len() implies next@[j] == impulse_diff(
                order as nat,
                (step + 1) as nat,
                j as nat,
            ) by {
                lemma_impulse_diff_step(order as nat, step as nat, j as nat);
            }
        }
        coeffs = next;
    }
    proof {
        assert forall|j: int| 0 <= j < coeffs@.len() implies coeffs@[j] == stencil_val(
            order as nat,
            j as nat,
        ) && -0x8000_0000 <= coeffs@[j] <= 0x8000_0000 by {
            lemma_impulse_diff_bound(order as nat, order as nat, j as nat);
        }
    }
    coeffs
}

/// Entry (r, c) of the (n - order) x n difference matrix: row `r` is the
/// stencil placed at columns r..=r+order, zero elsewhere.
pub open spec fn diff_entry(order: nat, r: int, c: int) -> int {
    if r <= c <= r + order {
        stencil_val(order, (c - r) as nat)
    } else {
        0
    }
}

/// A stencil coefficient is a binomial coefficient up to sign, so it is
/// never zero: each row of the difference matrix has exactly order + 1
/// nonzero entries.
proof fn lemma_stencil_nonzero(d: nat, j: nat)
    requires
        j <= d,
    ensures
        stencil_val(d, j) != 0,
{
    lemma_binom_pos(d, (d - j) as nat);
}

/// The order-`order` difference matrix for `n` samples, of shape
/// (n - order) x n, or `InvalidOrder` exactly when no such operator exists
/// (empty input or `order >= n`).
pub fn difference_matrix(n: usize, order: usize) -> (res: Result<Matrix, SmootherError>)
    requires
        order <= MAX_ORDER,
    ensures
        match res {
            Ok(d) => {
                &&& n > 0
                &&& order < n
                &&& d.wf()
                &&& d.rows_spec() == n - order
                &&& d.cols_spec() == n
                &&& forall|r: int, c: int|
                    0 <= r < n - order && 0 <= c < n ==> d.entry_spec(r, c) == diff_entry(
                        order as nat,
                        r,
                        c,
                    )
                &&& forall|r: int, c: int|
                    0 <= r < n - order && 0 <= c < n ==> (d.entry_spec(r, c) != 0 <==> r <= c <= r
                        + order)
                &&& forall|r: int, c: int|
                    0 <= r < n - order && 0 <= c < n ==> -0x8000_0000 <= #[trigger] d.entry_spec(
                        r,
                        c,
                    ) <= 0x8000_0000
            },
            Err(e) => e == SmootherError::InvalidOrder && (n == 0 || order >= n),
        },
{
    if n == 0 || order >= n {
        return Err(SmootherError::InvalidOrder);
    }
    let coeffs: Vec<i128> = difference_stencil(order);
    let n_rows: usize = n - order;
    let mut data: Vec<Vec<i128>> = Vec::new();
    let mut i: usize = 0;
    while i < n_rows
        invariant
            order < n,
            order <= MAX_ORDER,
            n_rows == n - order,
            i <= n_rows,
            coeffs@.len() == order + 1,
            forall|j: int| 0 <= j < coeffs@.len() ==> coeffs@[j] == stencil_val(order as nat, j as nat),
            forall|j: int| 0 <= j < coeffs@.len() ==> -0x8000_0000 <= #[trigger] coeffs@[j] <= 0x8000_0000,
            data@.len() == i,
            forall|r: int| 0 <= r < i ==> #[trigger] data@[r]@.len() == n,
            forall|r: int, c: int|
                0 <= r < i && 0 <= c < n ==> #[trigger] data@[r]@[c] == diff_entry(order as nat, r, c),
        decreases n_rows - i,
    {
        let mut row: Vec<i128> = Vec::new();
        let mut c: usize = 0;
        while c < n
            invariant
                order < n,
                n_rows == n - order,
                i < n_rows,
                c <= n,
                coeffs@.len() == order + 1,
                forall|j: int|
                    0 <= j < coeffs@.len() ==> coeffs@[j] == stencil_val(order as nat, j as nat),
                forall|j: int|
                    0 <= j < coeffs@.len() ==> -0x8000_0000 <= #[trigger] coeffs@[j] <= 0x8000_0000,
                row@.len() == c,
                forall|k: int| 0 <= k < c ==> #[trigger] row@[k] == diff_entry(order as nat, i as int, k),
            decreases n - c,
        {
            if i <= c && c <= i + order {
                row.push(coeffs[c - i]);
            } else {
                row.push(0);
            }
            c = c + 1;
        }
        data.push(row);
        i = i + 1;
    }
    let d: Matrix = Matrix::from_rows(n_rows, n, data);
    proof {
        assert forall|r: int, c: int|
            0 <= r < n - order && 0 <= c < n implies (d.entry_spec(r, c) != 0 <==> r <= c <= r
            + order) by {
            if r <= c <= r + order {
                lemma_stencil_nonzero(order as nat, (c - r) as nat);
            }
        }
        assert forall|r: int, c: int|
            0 <= r < n - order && 0 <= c < n implies -0x8000_0000 <= #[trigger] d.entry_spec(r, c)
            <= 0x8000_0000 by {
            if r <= c <= r + order {
                lemma_impulse_diff_bound(order as nat, order as nat, (c - r) as nat);
            }
        }
    }
    Ok(d)
}

/// Partial inner product of columns `i` and `j` of `d`: the sum over the
/// first `k` rows of d[r][i] * d[r][j].
pub open spec fn gram_sum(d: Matrix, i: int, j: int, k: int) -> int
    decreases k,
{
    if k <= 0 {
        0
    } else {
        gram_sum(d, i, j, k - 1) + d.entry_spec(k - 1, i) * d.entry_spec(k - 1, j)
    }
}

/// Partial inner product of columns `i` and `j` of the order-`order`
/// difference matrix, over its first `k` rows.
pub open spec fn penalty_sum(order: nat, i: int, j: int, k: int) -> int
    decreases k,
{
    if k <= 0 {
        0
    } else {
        penalty_sum(order, i, j, k - 1) + diff_entry(order, k - 1, i) * diff_entry(order, k - 1, j)
    }
}

/// Entry (i, j) of the penalty Gram matrix A = D' * D for `n` samples at
/// order `order`: the inner product of columns `i` and `j` of D over all its
/// n - order rows.
pub open spec fn penalty_entry(n: nat, order: nat, i: int, j: int) -> int {
    penalty_sum(order, i, j, n - order)
}

proof fn lemma_penalty_sum_order_zero(i: int, j: int, k: int)
    requires
        k >= 0,
    ensures
        penalty_sum(0, i, j, k) == if i == j && 0 <= i < k {
            1int
        } else {
            0int
        },
    decreases k,
{
    if k > 0 {
        lemma_penalty_sum_order_zero(i, j, k - 1);
        assert(stencil_val(0, 0) == 1);
        if k - 1 == i && k - 1 == j {
            assert(diff_entry(0, k - 1, i) == 1);
            assert(diff_entry(0, k - 1, i) * diff_entry(0, k - 1, j) == 1);
        } else if k - 1 == i {
            assert(diff_entry(0, k - 1, j) == 0);
            assert(diff_entry(0, k - 1, i) * diff_entry(0, k - 1, j) == 0) by (nonlinear_arith)
                requires
                    diff_entry(0, k - 1, j) == 0,
            ;
        } else {
            assert(diff_entry(0, k - 1, i) == 0);
            assert(diff_entry(0, k - 1, i) * diff_entry(0, k - 1, j) == 0) by (nonlinear_arith)
                requires
                    diff_entry(0, k - 1, i) == 0,
            ;
        }
    }
}

/// At order 0 the difference operator is the identity, so the penalty Gram
/// matrix A = D' * D is exactly the identity: the system C = I + lambda * A
/// then penalizes nothing but distance from the raw data.
pub proof fn lemma_penalty_identity_at_order_zero(n: nat, i: int, j: int)
    requires
        0 <= i < n,
        0 <= j < n,
    ensures
        penalty_entry(n, 0, i, j) == if i == j {
            1int
        } else {
            0int
        },
{
    lemma_penalty_sum_order_zero(i, j, n as int);
}

/// The Gram sums are symmetric in the two column indices.
proof fn lemma_gram_sum_symmetric(d: Matrix, i: int, j: int, k: int)
    ensures
        gram_sum(d, i, j, k) == gram_sum(d, j, i, k),
    decreases k,
{
    if k > 0 {
        lemma_gram_sum_symmetric(d, i, j, k - 1);
        let e1 = d.entry_spec(k - 1, i);
        let e2 = d.entry_spec(k - 1, j);
        assert(e1 * e2 == e2 * e1) by (nonlinear_arith);
    }
}

/// On a matrix whose entries are the difference-operator entries, the Gram
/// sums coincide with the penalty sums.
proof fn lemma_gram_sum_is_penalty_sum(d: Matrix, order: nat, i: int, j: int, k: int)
    requires
        d.wf(),
        0 <= i < d.cols_spec(),
        0 <= j < d.cols_spec(),
        0 <= k <= d.rows_spec(),
        forall|r: int, c: int|
            0 <= r < d.rows_spec() && 0 <= c < d.cols_spec() ==> #[trigger] d.entry_spec(r, c)
                == diff_entry(order, r, c),
    ensures
        gram_sum(d, i, j, k) == penalty_sum(order, i, j, k),
    decreases k,
{
    if k > 0 {
        lemma_gram_sum_is_penalty_sum(d, order, i, j, k - 1);
    }
}

/// The Gram matrix A = D' * D of a matrix with bounded entries, computed
/// row by row as an exact integer inner product of columns.
fn gram_matrix(d: &Matrix) -> (a: Matrix)
    requires
        d.wf(),
        forall|r: int, c: int|
            0 <= r < d.rows_spec() && 0 <= c < d.cols_spec() ==> -0x8000_0000
                <= #[trigger] d.entry_spec(r, c) <= 0x8000_0000,
    ensures
        a.wf(),
        a.rows_spec() == d.cols_spec(),
        a.cols_spec() == d.cols_spec(),
        forall|i: int, j: int|
            0 <= i < d.cols_spec() && 0 <= j < d.cols_spec() ==> #[trigger] a.entry_spec(i, j)
                == gram_sum(*d, i, j, d.rows_spec()),
{
    let m: usize = d.cols();
    let n_rows: usize = d.rows();
    let mut data: Vec<Vec<i128>> = Vec::new();
    let mut i: usize = 0;
    while i < m
        invariant
            d.wf(),
            m == d.cols_spec(),
            n_rows == d.rows_spec(),
            forall|r: int, c: int|
                0 <= r < d.rows_spec() && 0 <= c < d.cols_spec() ==> -0x8000_0000
                    <= #[trigger] d.entry_spec(r, c) <= 0x8000_0000,
            i <= m,
            data@.len() == i,
            forall|r: int| 0 <= r < i ==> #[trigger] data@[r]@.len() == m,
            forall|r: int, c: int|
                0 <= r < i && 0 <= c < m ==> #[trigger] data@[r]@[c] == gram_sum(*d, r, c, n_rows as int),
        decreases m - i,
    {
        let mut row: Vec<i128> = Vec::new();
        let mut j: usize = 0;
        while j < m
            invariant
                d.wf(),
                m == d.cols_spec(),
                n_rows == d.rows_spec(),
                forall|r: int, c: int|
                    0 <= r < d.rows_spec() && 0 <= c < d.cols_spec() ==> -0x8000_0000
                        <= #[trigger] d.entry_spec(r, c) <= 0x8000_0000,
                i < m,
                j <= m,
                row@.len() == j,
                forall|k: int|
                    0 <= k < j ==> #[trigger] row@[k] == gram_sum(*d, i as int, k, n_rows as int),
            decreases m - j,
        {
            let mut sum: i128 = 0;
            let mut r: usize = 0;
            while r < n_rows
                invariant
                    d.wf(),
                    m == d.cols_spec(),
                    n_rows == d.rows_spec(),
                    forall|rr: int, cc: int|
                        0 <= rr < d.rows_spec() && 0 <= cc < d.cols_spec() ==> -0x8000_0000
                            <= #[trigger] d.entry_spec(rr, cc) <= 0x8000_0000,
                    i < m,
                    j < m,
                    r <= n_rows,
                    sum == gram_sum(*d, i as int, j as int, r as int),
                    -(r * 0x4000_0000_0000_0000) <= sum <= r * 0x4000_0000_0000_0000,
                decreases n_rows - r,
            {
                let e1: i128 = d.entry(r, i);
                let e2: i128 = d.entry(r, j);
                proof {
                    assert(-0x4000_0000_0000_0000 <= e1 * e2 <= 0x4000_0000_0000_0000)
                        by (nonlinear_arith)
                        requires
                            -0x8000_0000 <= e1 <= 0x8000_0000,
                            -0x8000_0000 <= e2 <= 0x8000_0000,
                    ;
                }
                let term: i128 = e1 * e2;
                sum = sum + term;
                r = r + 1;
            }
            row.push(sum);
            j = j + 1;
        }
        data.push(row);
        i = i + 1;
    }
    Matrix::from_rows(m, m, data)
}

/// The penalty Gram matrix A = D' * D for `n` samples at order `order`, of
/// shape n x n and symmetric, or `InvalidOrder` exactly when the difference
/// operator cannot be constructed (empty input or `order >= n`).
///
/// The caller obtains the full Whittaker-Henderson system matrix as
/// C = I + lambda * A; at lambda = 0 that system is the identity.
pub fn penalty_matrix(n: usize, order: usize) -> (res: Result<Matrix, SmootherError>)
    requires
        order <= MAX_ORDER,
    ensures
        match res {
            Ok(a) => {
                &&& n > 0
                &&& order < n
                &&& a.wf()
                &&& a.rows_spec() == n
                &&& a.cols_spec() == n
                &&& forall|i: int, j: int|
                    0 <= i < n && 0 <= j < n ==> #[trigger] a.entry_spec(i, j) == penalty_entry(
                        n as nat,
                        order as nat,
                        i,
                        j,
                    )
                &&& forall|i: int, j: int|
                    0 <= i < n && 0 <= j < n ==> a.entry_spec(i, j) == a.entry_spec(j, i)
            },
            Err(e) => e == SmootherError::InvalidOrder && (n == 0 || order >= n),
        },
{
    let d: Matrix = match difference_matrix(n, order) {
        Ok(d) => d,
        Err(e) => {
            return Err(e);
        },
    };
    let a: Matrix = gram_matrix(&d);
    proof {
        assert forall|i: int, j: int| 0 <= i < n && 0 <= j < n implies #[trigger] a.entry_spec(i, j)
            == penalty_entry(n as nat, order as nat, i, j) by {
            lemma_gram_sum_is_penalty_sum(d, order as nat, i, j, d.rows_spec());
        }
        assert forall|i: int, j: int| 0 <= i < n && 0 <= j < n implies #[trigger] a.entry_spec(i, j)
            == a.entry_spec(j, i) by {
            lemma_gram_sum_symmetric(d, i, j, d.rows_spec());
        }
    }
    Ok(a)
}

} // verus!
