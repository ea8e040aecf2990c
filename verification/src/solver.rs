//! The linear solver: Gauss-Jordan elimination over GF(256).
//!
//! `solve` takes any number of equations in `l` unknown symbols and returns
//! the solution exactly when the equations have one and only one.
use crate::gf256::{
    alpha_pow, gf_add, gf_inv, gf_mul, inverse, lemma_mul_inverse, lemma_mul_zero_one,
    lemma_xor_laws, logarithm, multiply, times_power,
};
use crate::linear::{
    axpy, dot_at, lemma_axpy_same_solutions, lemma_dot_skip, lemma_dot_sum,
    lemma_scaled_same_solutions, row_holds, rows_have_width, same_solutions, scaled, shaped,
    solves, sum_of, unique_solution,
};
use vstd::prelude::*;

verus! {

/// The rows of a matrix held as vectors, as sequences of octets.
pub open spec fn rows_view(rows: Seq<Vec<u8>>) -> Seq<Seq<u8>> {
    Seq::new(rows.len(), |r: int| rows[r]@)
}

/// The first `c` columns of `m` are those of the identity matrix.
pub open spec fn reduced(m: Seq<Seq<u8>>, c: int) -> bool {
    c <= m.len() && forall|r: int, k: int|
        0 <= r < m.len() && 0 <= k < c ==> #[trigger] m[r][k] == (if r == k {
            1u8
        } else {
            0u8
        })
}

/// The candidate that puts column `c` of the reduced rows above a one and zeros:
/// a nonzero vector that every row of `m` maps to zero when column `c` has no pivot.
pub open spec fn kernel_vector(m: Seq<Seq<u8>>, c: int, l: int, t: int) -> Seq<Seq<u8>> {
    Seq::new(
        l as nat,
        |k: int|
            Seq::new(
                t as nat,
                |i: int|
                    if k < c {
                        m[k][c]
                    } else if k == c {
                        1u8
                    } else {
                        0u8
                    },
            ),
    )
}

/// Adding one changes every octet.
proof fn lemma_xor_one(a: u8)
    by (bit_vector)
    ensures
        a ^ 1 != a,
{
}

/// Every row maps the kernel vector of a column without pivot to zero.
proof fn lemma_kernel_row(m: Seq<Seq<u8>>, c: int, l: int, t: int, r: int, i: int)
    requires
        0 <= c < l,
        0 <= i < t,
        0 <= r < m.len(),
        rows_have_width(m, l + t),
        reduced(m, c),
        forall|q: int| c <= q < m.len() ==> (#[trigger] m[q])[c] == 0,
    ensures
        dot_at(m[r], kernel_vector(m, c, l, t), i, l) == 0,
{
    let v = kernel_vector(m, c, l, t);
    let row = m[r];
    assert forall|k: int| c < k < l implies row[k] == 0 || v[k][i] == 0 by {
        assert(v[k][i] == 0);
    }
    lemma_dot_skip(row, v, i, c + 1, l);
    assert(v[c][i] == 1);
    lemma_mul_zero_one(row[c]);
    if r < c {
        assert forall|k: int| r < k < c implies row[k] == 0 || v[k][i] == 0 by {
            assert(m[r][k] == 0);
        }
        lemma_dot_skip(row, v, i, r + 1, c);
        assert forall|k: int| 0 <= k < r implies row[k] == 0 || v[k][i] == 0 by {
            assert(m[r][k] == 0);
        }
        lemma_dot_skip(row, v, i, 0, r);
        assert(m[r][r] == 1);
        assert(v[r][i] == m[r][c]);
        lemma_mul_zero_one(m[r][c]);
        lemma_xor_laws(m[r][c], 0, 0);
        assert(dot_at(row, v, i, r) == 0);
        assert(dot_at(row, v, i, r + 1) == m[r][c]);
        assert(dot_at(row, v, i, c) == m[r][c]);
        assert(dot_at(row, v, i, c + 1) == gf_add(m[r][c], m[r][c]));
    } else {
        assert forall|k: int| 0 <= k < c implies row[k] == 0 || v[k][i] == 0 by {
            assert(m[r][k] == 0);
        }
        lemma_dot_skip(row, v, i, 0, c);
        assert(m[r][c] == 0);
        lemma_xor_laws(0, 0, 0);
        assert(dot_at(row, v, i, c + 1) == 0);
    }
}

/// Without a pivot in column `c`, no candidate is the only solution.
proof fn lemma_no_pivot(orig: Seq<Seq<u8>>, m: Seq<Seq<u8>>, c: int, l: int, t: int)
    requires
        0 <= c < l,
        0 < t,
        rows_have_width(m, l + t),
        reduced(m, c),
        forall|q: int| c <= q < m.len() ==> (#[trigger] m[q])[c] == 0,
        same_solutions(orig, m, l, t),
    ensures
        forall|y: Seq<Seq<u8>>| !unique_solution(orig, y, l, t),
{
    let v = kernel_vector(m, c, l, t);
    assert forall|y: Seq<Seq<u8>>| !unique_solution(orig, y, l, t) by {
        if unique_solution(orig, y, l, t) {
            assert(solves(orig, y, l, t));
            assert(solves(m, y, l, t));
            let z = sum_of(y, v);
            assert(shaped(z, l, t)) by {
                assert forall|k: int| 0 <= k < l implies (#[trigger] z[k]).len() == t by {
                    assert(y[k].len() == t);
                }
            }
            assert forall|r: int| 0 <= r < m.len() implies row_holds(#[trigger] m[r], z, l, t) by {
                assert(row_holds(m[r], y, l, t));
                assert forall|i: int| 0 <= i < t implies #[trigger] dot_at(m[r], z, i, l)
                    == m[r][l + i] by {
                    assert forall|j: int| 0 <= j < l implies i < (#[trigger] y[j]).len() by {}
                    lemma_dot_sum(m[r], y, v, i, l);
                    lemma_kernel_row(m, c, l, t, r, i);
                    assert(dot_at(m[r], y, i, l) == m[r][l + i]);
                    lemma_xor_laws(m[r][l + i], 0, 0);
                }
            }
            assert(solves(m, z, l, t));
            assert(solves(orig, z, l, t));
            assert(y[c].len() == t);
            assert(z[c][0] == gf_add(y[c][0], v[c][0]));
            assert(v[c][0] == 1);
            lemma_xor_one(y[c][0]);
            assert(z != y);
        }
    }
}

/// A row without coefficients and with a nonzero right-hand side has no solution.
proof fn lemma_inconsistent(orig: Seq<Seq<u8>>, m: Seq<Seq<u8>>, r: int, i: int, l: int, t: int)
    requires
        0 <= l,
        0 <= i < t,
        l <= r < m.len(),
        rows_have_width(m, l + t),
        reduced(m, l),
        m[r][l + i] != 0,
        same_solutions(orig, m, l, t),
    ensures
        forall|y: Seq<Seq<u8>>| !unique_solution(orig, y, l, t),
{
    assert forall|y: Seq<Seq<u8>>| !unique_solution(orig, y, l, t) by {
        if unique_solution(orig, y, l, t) {
            assert(solves(orig, y, l, t));
            assert(solves(m, y, l, t));
            assert(row_holds(m[r], y, l, t));
            assert forall|k: int| 0 <= k < l implies m[r][k] == 0 || y[k][i] == 0 by {
                assert(m[r][k] == 0);
            }
            lemma_dot_skip(m[r], y, i, 0, l);
            assert(dot_at(m[r], y, i, l) == m[r][l + i]);
        }
    }
}

/// Once the coefficients are the identity over zero rows with zero right-hand
/// sides, the right-hand sides of the first `l` rows are the only solution.
proof fn lemma_read_off(orig: Seq<Seq<u8>>, m: Seq<Seq<u8>>, out: Seq<Seq<u8>>, l: int, t: int)
    requires
        0 <= l,
        0 <= t,
        rows_have_width(m, l + t),
        reduced(m, l),
        forall|r: int, j: int| l <= r < m.len() && l <= j < l + t ==> #[trigger] m[r][j] == 0,
        shaped(out, l, t),
        forall|k: int, i: int| 0 <= k < l && 0 <= i < t ==> #[trigger] out[k][i] == m[k][l + i],
        same_solutions(orig, m, l, t),
    ensures
        unique_solution(orig, out, l, t),
{
    assert forall|r: int| 0 <= r < m.len() implies row_holds(#[trigger] m[r], out, l, t) by {
        assert forall|i: int| 0 <= i < t implies #[trigger] dot_at(m[r], out, i, l) == m[r][l
            + i] by {
            lemma_unit_row(m, out, r, i, l);
            if r < l {
                assert(out[r][i] == m[r][l + i]);
            } else {
                assert(m[r][l + i] == 0);
            }
        }
    }
    assert(solves(m, out, l, t));
    assert(solves(orig, out, l, t));
    assert forall|z: Seq<Seq<u8>>| #[trigger] solves(orig, z, l, t) implies z == out by {
        assert(solves(m, z, l, t));
        assert forall|k: int| 0 <= k < l implies #[trigger] z[k] =~= out[k] by {
            assert(z[k].len() == t);
            assert(out[k].len() == t);
            assert(row_holds(m[k], z, l, t));
            assert forall|i: int| 0 <= i < t implies z[k][i] == out[k][i] by {
                lemma_unit_row(m, z, k, i, l);
                assert(dot_at(m[k], z, i, l) == m[k][l + i]);
                assert(out[k][i] == m[k][l + i]);
            }
        }
        assert(z =~= out);
    }
}

/// Row `r` of a fully reduced matrix picks unknown `r`, or nothing when `r >= l`.
proof fn lemma_unit_row(m: Seq<Seq<u8>>, y: Seq<Seq<u8>>, r: int, i: int, l: int)
    requires
        0 <= l,
        0 <= r < m.len(),
        reduced(m, l),
    ensures
        dot_at(m[r], y, i, l) == (if r < l {
            y[r][i]
        } else {
            0u8
        }),
{
    let row = m[r];
    if r < l {
        assert forall|k: int| r < k < l implies row[k] == 0 || y[k][i] == 0 by {
            assert(m[r][k] == 0);
        }
        lemma_dot_skip(row, y, i, r + 1, l);
        assert forall|k: int| 0 <= k < r implies row[k] == 0 || y[k][i] == 0 by {
            assert(m[r][k] == 0);
        }
        lemma_dot_skip(row, y, i, 0, r);
        assert(m[r][r] == 1);
        lemma_mul_zero_one(y[r][i]);
        lemma_xor_laws(y[r][i], 0, 0);
        assert(dot_at(row, y, i, r) == 0);
        assert(dot_at(row, y, i, r + 1) == y[r][i]);
    } else {
        assert forall|k: int| 0 <= k < l implies row[k] == 0 || y[k][i] == 0 by {
            assert(m[r][k] == 0);
        }
        lemma_dot_skip(row, y, i, 0, l);
    }
}

/// A copy of the octets of `v`.
pub fn copy_of(v: &Vec<u8>) -> (out: Vec<u8>)
    ensures
        out@ == v@,
{
    let n: usize = v.len();
    let mut out: Vec<u8> = Vec::new();
    let mut i: usize = 0;
    while i < n
        invariant
            i <= n,
            n == v@.len(),
            out@.len() == i,
            forall|q: int| 0 <= q < i ==> out@[q] == v@[q],
        decreases n - i,
    {
        out.push(v[i]);
        i += 1;
    }
    assert(out@ =~= v@);
    out
}

/// Adds `f` times the row `src` to `row`. The entries of `src` before
/// `start` are zero, so the work begins there.
fn add_scaled(row: &mut Vec<u8>, src: &Vec<u8>, f: u8, start: usize)
    requires
        old(row)@.len() == src@.len(),
        start <= src@.len(),
        f != 0,
        forall|k: int| 0 <= k < start ==> src@[k] == 0,
    ensures
        final(row)@ == axpy(old(row)@, src@, f),
{
    let width: usize = src.len();
    let ghost x0 = row@;
    proof {
        lemma_mul_zero_one(f);
        assert forall|j: int| 0 <= j < start implies x0[j] == gf_add(x0[j], gf_mul(f, src@[j])) by {
            lemma_xor_laws(x0[j], 0, 0);
        }
    }
    let mut k: usize = start;
    if f == 1 {
        while k < width
            invariant
                start <= k <= width,
                width == src@.len(),
                row@.len() == width,
                x0.len() == width,
                f == 1,
                forall|j: int| 0 <= j < k ==> row@[j] == gf_add(x0[j], gf_mul(f, src@[j])),
                forall|j: int| k <= j < width ==> row@[j] == x0[j],
            decreases width - k,
        {
            proof {
                lemma_mul_zero_one(src@[k as int]);
            }
            let v: u8 = row[k] ^ src[k];
            row.set(k, v);
            k += 1;
        }
    } else {
        let l: u8 = logarithm(f);
        while k < width
            invariant
                start <= k <= width,
                width == src@.len(),
                row@.len() == width,
                x0.len() == width,
                l < 255,
                alpha_pow(l as nat) == f,
                forall|j: int| 0 <= j < k ==> row@[j] == gf_add(x0[j], gf_mul(f, src@[j])),
                forall|j: int| k <= j < width ==> row@[j] == x0[j],
            decreases width - k,
        {
            let s: u8 = src[k];
            if s != 0 {
                let v: u8 = row[k] ^ times_power(l, s);
                row.set(k, v);
            } else {
                proof {
                    lemma_mul_zero_one(f);
                    lemma_xor_laws(x0[k as int], 0, 0);
                }
            }
            k += 1;
        }
    }
    assert(row@ =~= axpy(x0, src@, f));
}

/// Adds `f` times the row `src`, a copy of another row of `m`, to row `target`.
fn add_multiple(m: &mut Vec<Vec<u8>>, target: usize, src: &Vec<u8>, f: u8, start: usize)
    requires
        target < old(m).len(),
        old(m)[target as int].len() == src@.len(),
        start <= src@.len(),
        f != 0,
        forall|k: int| 0 <= k < start ==> src@[k] == 0,
    ensures
        rows_view(final(m)@) == rows_view(old(m)@).update(
            target as int,
            axpy(old(m)[target as int]@, src@, f),
        ),
{
    let ghost before = m@;
    add_scaled(&mut m[target], src, f, start);
    proof {
        let want = rows_view(before).update(target as int, axpy(before[target as int]@, src@, f));
        let got = rows_view(m@);
        assert forall|r: int| 0 <= r < got.len() implies got[r] =~= want[r] by {
            if r != target {
                assert(m@[r] == before[r]);
            }
        }
        assert(got =~= want);
    }
}

/// Multiplies row `r` by `f`.
fn scale_row(m: &mut Vec<Vec<u8>>, r: usize, f: u8)
    requires
        r < old(m).len(),
    ensures
        rows_view(final(m)@) == rows_view(old(m)@).update(r as int, scaled(old(m)[r as int]@, f)),
{
    let width: usize = m[r].len();
    let ghost before = m@;
    let ghost x0 = m@[r as int]@;
    let mut k: usize = 0;
    while k < width
        invariant
            k <= width,
            r < m@.len(),
            m@.len() == before.len(),
            forall|q: int| 0 <= q < m@.len() && q != r ==> m@[q] == before[q],
            m@[r as int]@.len() == width,
            x0.len() == width,
            forall|j: int| 0 <= j < k ==> m@[r as int]@[j] == gf_mul(f, x0[j]),
            forall|j: int| k <= j < width ==> m@[r as int]@[j] == x0[j],
        decreases width - k,
    {
        let x: u8 = m[r][k];
        let v: u8 = multiply(f, x);
        m[r][k] = v;
        k += 1;
    }
    proof {
        let want = rows_view(before).update(r as int, scaled(x0, f));
        let got = rows_view(m@);
        assert forall|q: int| 0 <= q < got.len() implies got[q] =~= want[q] by {
            if q != r {
                assert(m@[q] == before[q]);
            }
        }
        assert(got =~= want);
    }
}

/// Adding a lower row with a nonzero entry in column `c` to row `c` gives row
/// `c` that entry and keeps the reduced columns.
proof fn lemma_fix_pivot(m: Seq<Seq<u8>>, c: int, p: int, width: int)
    requires
        reduced(m, c),
        0 <= c < p < m.len(),
        c < width,
        rows_have_width(m, width),
        m[c][c] == 0,
    ensures
        reduced(m.update(c, axpy(m[c], m[p], 1)), c),
        rows_have_width(m.update(c, axpy(m[c], m[p], 1)), width),
        m.update(c, axpy(m[c], m[p], 1))[c][c] == m[p][c],
{
    let after = m.update(c, axpy(m[c], m[p], 1));
    assert(m[c].len() == width);
    assert(m[p].len() == width);
    lemma_mul_zero_one(m[p][c]);
    lemma_xor_laws(m[p][c], 0, 0);
    assert forall|r: int, k: int| 0 <= r < after.len() && 0 <= k < c implies #[trigger] after[r][k]
        == (if r == k {
        1u8
    } else {
        0u8
    }) by {
        if r == c {
            assert(m[c][k] == 0);
            assert(m[p][k] == 0);
            lemma_mul_zero_one(1);
            lemma_xor_laws(0, 0, 0);
        } else {
            assert(after[r] == m[r]);
            assert(m[r][k] == (if r == k {
                1u8
            } else {
                0u8
            }));
        }
    }
    assert forall|r: int| 0 <= r < after.len() implies (#[trigger] after[r]).len() == width by {
        if r != c {
            assert(after[r] == m[r]);
        }
    }
}

/// Dividing row `c` by its entry in column `c` makes that entry one and keeps
/// the reduced columns.
proof fn lemma_normalize(m: Seq<Seq<u8>>, c: int, width: int)
    requires
        reduced(m, c),
        0 <= c < m.len(),
        c < width,
        rows_have_width(m, width),
        m[c][c] != 0,
    ensures
        reduced(m.update(c, scaled(m[c], gf_inv(m[c][c]))), c),
        rows_have_width(m.update(c, scaled(m[c], gf_inv(m[c][c]))), width),
        m.update(c, scaled(m[c], gf_inv(m[c][c])))[c][c] == 1,
{
    let f = gf_inv(m[c][c]);
    let after = m.update(c, scaled(m[c], f));
    assert(m[c].len() == width);
    lemma_mul_inverse(m[c][c]);
    lemma_mul_zero_one(f);
    assert forall|r: int, k: int| 0 <= r < after.len() && 0 <= k < c implies #[trigger] after[r][k]
        == (if r == k {
        1u8
    } else {
        0u8
    }) by {
        if r == c {
            assert(m[c][k] == 0);
        } else {
            assert(after[r] == m[r]);
            assert(m[r][k] == (if r == k {
                1u8
            } else {
                0u8
            }));
        }
    }
    assert forall|r: int| 0 <= r < after.len() implies (#[trigger] after[r]).len() == width by {
        if r != c {
            assert(after[r] == m[r]);
        }
    }
}

/// Subtracting from row `r` its entry in column `c` times the pivot row clears
/// that entry and keeps the reduced columns.
proof fn lemma_eliminate(m: Seq<Seq<u8>>, r0: int, c: int, width: int)
    requires
        reduced(m, c),
        0 <= c < m.len(),
        0 <= r0 < m.len(),
        r0 != c,
        c < width,
        rows_have_width(m, width),
        m[c][c] == 1,
    ensures
        reduced(m.update(r0, axpy(m[r0], m[c], m[r0][c])), c),
        rows_have_width(m.update(r0, axpy(m[r0], m[c], m[r0][c])), width),
        m.update(r0, axpy(m[r0], m[c], m[r0][c]))[r0][c] == 0,
{
    let f = m[r0][c];
    let after = m.update(r0, axpy(m[r0], m[c], f));
    assert(m[c].len() == width);
    assert(m[r0].len() == width);
    lemma_mul_zero_one(f);
    lemma_xor_laws(f, 0, 0);
    assert forall|r: int, k: int| 0 <= r < after.len() && 0 <= k < c implies #[trigger] after[r][k]
        == (if r == k {
        1u8
    } else {
        0u8
    }) by {
        if r == r0 {
            assert(m[c][k] == 0);
            lemma_xor_laws(m[r0][k], 0, 0);
            assert(m[r0][k] == (if r == k {
                1u8
            } else {
                0u8
            }));
        } else {
            assert(after[r] == m[r]);
            assert(m[r][k] == (if r == k {
                1u8
            } else {
                0u8
            }));
        }
    }
    assert forall|r: int| 0 <= r < after.len() implies (#[trigger] after[r]).len() == width by {
        if r != r0 {
            assert(after[r] == m[r]);
        }
    }
}

/// A column whose only nonzero entry is a one on the diagonal extends the
/// reduced columns by one.
proof fn lemma_reduced_next(m: Seq<Seq<u8>>, c: int)
    requires
        reduced(m, c),
        0 <= c < m.len(),
        m[c][c] == 1,
        forall|q: int| 0 <= q < m.len() && q != c ==> (#[trigger] m[q])[c] == 0,
    ensures
        reduced(m, c + 1),
{
    assert forall|r: int, k: int| 0 <= r < m.len() && 0 <= k < c + 1 implies #[trigger] m[r][k]
        == (if r == k {
        1u8
    } else {
        0u8
    }) by {
        if k == c && r != c {
            assert(m[r][c] == 0);
        }
    }
}

/// Brings column `c` of `m` to the form of the identity matrix, given that the
/// columns before it have that form. Returns `false`, and leaves `m` as it
/// was, when no row from `c` on has a nonzero entry in the column.
fn reduce_column(m: &mut Vec<Vec<u8>>, c: usize, l: usize, t: usize, Ghost(orig): Ghost<Seq<Seq<u8>>>) -> (found: bool)
    requires
        c < l,
        0 < t,
        l + t <= usize::MAX,
        rows_have_width(rows_view(old(m)@), l + t),
        reduced(rows_view(old(m)@), c as int),
        same_solutions(orig, rows_view(old(m)@), l as int, t as int),
    ensures
        final(m)@.len() == old(m)@.len(),
        rows_have_width(rows_view(final(m)@), l + t),
        same_solutions(orig, rows_view(final(m)@), l as int, t as int),
        found ==> reduced(rows_view(final(m)@), c + 1),
        !found ==> forall|y: Seq<Seq<u8>>| !unique_solution(orig, y, l as int, t as int),
{
    let n: usize = m.len();
    let mut p: usize = c;
    assert forall|q: int| 0 <= q < n implies (#[trigger] m@[q])@.len() == l + t by {
        assert(rows_view(m@)[q].len() == l + t);
    }
    while p < n && m[p][c] == 0
        invariant
            forall|q: int| 0 <= q < n ==> (#[trigger] m@[q])@.len() == l + t,
            c <= p,
            c <= n,
            c < l,
            n == m@.len(),
            p <= n || n < c,
            rows_have_width(rows_view(m@), l + t),
            forall|q: int| c <= q < p ==> (#[trigger] rows_view(m@)[q])[c as int] == 0,
        decreases n - p,
    {
        assert(rows_view(m@)[p as int].len() == l + t);
        p += 1;
    }
    if p >= n {
        proof {
            lemma_no_pivot(orig, rows_view(m@), c as int, l as int, t as int);
        }
        return false;
    }
    assert(rows_view(m@)[p as int].len() == l + t);
    assert(rows_view(m@)[c as int].len() == l + t);
    assert(rows_view(m@)[p as int][c as int] != 0);
    if p != c {
        proof {
            assert(rows_view(m@)[c as int][c as int] == 0);
            lemma_axpy_same_solutions(rows_view(m@), c as int, p as int, 1, l as int, t as int);
            lemma_fix_pivot(rows_view(m@), c as int, p as int, l + t);
        }
        let other = copy_of(&m[p]);
        assert forall|k: int| 0 <= k < c implies other@[k] == 0 by {
            assert(rows_view(m@)[p as int][k] == 0);
        }
        add_multiple(m, c, &other, 1, c);
    }
    assert(rows_view(m@)[c as int].len() == l + t);
    let pivot: u8 = m[c][c];
    let inv: u8 = inverse(pivot);
    proof {
        lemma_mul_inverse(pivot);
        lemma_scaled_same_solutions(rows_view(m@), c as int, inv, l as int, t as int);
        lemma_normalize(rows_view(m@), c as int, l + t);
    }
    scale_row(m, c, inv);
    let pivot_row = copy_of(&m[c]);
    assert forall|k: int| 0 <= k < c implies pivot_row@[k] == 0 by {
        assert(rows_view(m@)[c as int][k] == 0);
    }
    let mut r: usize = 0;
    while r < n
        invariant
            r <= n,
            pivot_row@ == rows_view(m@)[c as int],
            forall|k: int| 0 <= k < c ==> pivot_row@[k] == 0,
            c < n,
            c < l,
            n == m@.len(),
            rows_have_width(rows_view(m@), l + t),
            reduced(rows_view(m@), c as int),
            same_solutions(orig, rows_view(m@), l as int, t as int),
            rows_view(m@)[c as int][c as int] == 1,
            forall|q: int| 0 <= q < r && q != c ==> (#[trigger] rows_view(m@)[q])[c as int] == 0,
        decreases n - r,
    {
        if r != c {
            assert(rows_view(m@)[r as int].len() == l + t);
            assert(rows_view(m@)[c as int].len() == l + t);
            let f: u8 = m[r][c];
            if f != 0 {
                let ghost before = rows_view(m@);
                proof {
                    lemma_axpy_same_solutions(before, r as int, c as int, f, l as int, t as int);
                    lemma_eliminate(before, r as int, c as int, l + t);
                }
                add_multiple(m, r, &pivot_row, f, c);
                proof {
                    let after = rows_view(m@);
                    assert(after[c as int] == before[c as int]);
                    assert forall|q: int| 0 <= q < r + 1 && q != c implies (#[trigger] after[q])[c as int]
                        == 0 by {
                        if q != r {
                            assert(after[q] == before[q]);
                        }
                    }
                }
            }
        }
        r += 1;
    }
    proof {
        lemma_reduced_next(rows_view(m@), c as int);
    }
    true
}

/// Whether the right-hand sides of the rows from `l` on are all zero.
fn surplus_rows_are_zero(m: &Vec<Vec<u8>>, l: usize, t: usize) -> (zero: bool)
    requires
        l + t <= usize::MAX,
        rows_have_width(rows_view(m@), l + t),
    ensures
        zero ==> forall|r: int, j: int|
            l <= r < m@.len() && l <= j < l + t ==> #[trigger] rows_view(m@)[r][j] == 0,
        !zero ==> exists|r: int, j: int|
            l <= r < m@.len() && l <= j < l + t && #[trigger] rows_view(m@)[r][j] != 0,
{
    let n: usize = m.len();
    let mut r: usize = l;
    while r < n
        invariant
            l <= r,
            n == m@.len(),
            l + t <= usize::MAX,
            rows_have_width(rows_view(m@), l + t),
            forall|q: int, j: int| l <= q < r && l <= j < l + t ==> #[trigger] rows_view(m@)[q][j] == 0,
        decreases n - r,
    {
        assert(rows_view(m@)[r as int].len() == l + t);
        let mut i: usize = 0;
        while i < t
            invariant
                i <= t,
                l <= r < n,
                n == m@.len(),
                l + t <= usize::MAX,
                m@[r as int]@.len() == l + t,
                forall|j: int| l <= j < l + i ==> #[trigger] rows_view(m@)[r as int][j] == 0,
            decreases t - i,
        {
            if m[r][l + i] != 0 {
                assert(rows_view(m@)[r as int][l + i] != 0);
                return false;
            }
            i += 1;
        }
        r += 1;
    }
    true
}

/// The right-hand sides of the first `l` rows, one symbol for each.
fn right_hand_sides(m: &Vec<Vec<u8>>, l: usize, t: usize) -> (out: Vec<Vec<u8>>)
    requires
        l <= m@.len(),
        l + t <= usize::MAX,
        rows_have_width(rows_view(m@), l + t),
    ensures
        shaped(rows_view(out@), l as int, t as int),
        forall|k: int, i: int|
            0 <= k < l && 0 <= i < t ==> #[trigger] rows_view(out@)[k][i] == rows_view(m@)[k][l + i],
{
    let mut out: Vec<Vec<u8>> = Vec::new();
    let mut k: usize = 0;
    while k < l
        invariant
            k <= l,
            l <= m@.len(),
            l + t <= usize::MAX,
            rows_have_width(rows_view(m@), l + t),
            out@.len() == k,
            forall|q: int| 0 <= q < k ==> (#[trigger] out@[q])@.len() == t,
            forall|q: int, i: int|
                0 <= q < k && 0 <= i < t ==> #[trigger] out@[q]@[i] == rows_view(m@)[q][l + i],
        decreases l - k,
    {
        assert(rows_view(m@)[k as int].len() == l + t);
        let mut sym: Vec<u8> = Vec::new();
        let mut i: usize = 0;
        while i < t
            invariant
                i <= t,
                k < l,
                l <= m@.len(),
                l + t <= usize::MAX,
                m@[k as int]@.len() == l + t,
                sym@.len() == i,
                forall|j: int| 0 <= j < i ==> #[trigger] sym@[j] == m@[k as int]@[l + j],
            decreases t - i,
        {
            sym.push(m[k][l + i]);
            i += 1;
        }
        out.push(sym);
        k += 1;
    }
    proof {
        let ov = rows_view(out@);
        assert forall|q: int| 0 <= q < l implies (#[trigger] ov[q]).len() == t by {
            assert(out@[q]@.len() == t);
        }
        assert forall|q: int, i: int| 0 <= q < l && 0 <= i < t implies #[trigger] ov[q][i]
            == rows_view(m@)[q][l + i] by {
            assert(out@[q]@[i] == rows_view(m@)[q][l + i]);
        }
    }
    out
}

/// Solves a system of linear equations over GF(256).
///
/// Each row of `rows` is an equation in `l` unknown symbols of `t` octets:
/// `l` coefficients followed by the `t` octets of the right-hand side. The
/// result is the solution when the system has exactly one, and `None` when it
/// has none or more than one.
pub fn solve(rows: Vec<Vec<u8>>, l: usize, t: usize) -> (res: Option<Vec<Vec<u8>>>)
    requires
        0 < t,
        l + t <= usize::MAX,
        rows_have_width(rows_view(rows@), l + t),
    ensures
        match res {
            Some(c) => unique_solution(rows_view(rows@), rows_view(c@), l as int, t as int),
            None => forall|y: Seq<Seq<u8>>| !unique_solution(rows_view(rows@), y, l as int, t as int),
        },
{
    let ghost orig = rows_view(rows@);
    let mut m = rows;
    let mut c: usize = 0;
    while c < l
        invariant
            c <= l,
            0 < t,
            l + t <= usize::MAX,
            orig == rows_view(rows@),
            m@.len() == orig.len(),
            rows_have_width(rows_view(m@), l + t),
            reduced(rows_view(m@), c as int),
            same_solutions(orig, rows_view(m@), l as int, t as int),
        decreases l - c,
    {
        let found = reduce_column(&mut m, c, l, t, Ghost(orig));
        if !found {
            return None;
        }
        c += 1;
    }
    if !surplus_rows_are_zero(&m, l, t) {
        proof {
            let (r, j) = choose|r: int, j: int|
                l <= r < m@.len() && l <= j < l + t && #[trigger] rows_view(m@)[r][j] != 0;
            lemma_inconsistent(orig, rows_view(m@), r, j - l, l as int, t as int);
        }
        return None;
    }
    let out = right_hand_sides(&m, l, t);
    proof {
        lemma_read_off(orig, rows_view(m@), rows_view(out@), l as int, t as int);
    }
    Some(out)
}

} // verus!
