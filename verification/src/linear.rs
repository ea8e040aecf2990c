//! Systems of linear equations over GF(256), as mathematical objects.
//!
//! The unknowns are `l` symbols of `t` octets each. An equation is a row of
//! `l + t` octets: `l` coefficients, then the `t` octets of its right-hand
//! side. A candidate solution satisfies the row when, at every octet position,
//! the coefficients combine the unknowns into the right-hand side.
use crate::gf256::{
    gf_add, gf_inv, gf_mul, lemma_mul_associative, lemma_mul_distributive, lemma_mul_inverse,
    lemma_mul_zero_one, lemma_xor_laws,
};
use vstd::prelude::*;

verus! {

/// The combination of the first `k` unknowns by the coefficients of `coef`,
/// at octet position `i`.
pub open spec fn dot_at(coef: Seq<u8>, y: Seq<Seq<u8>>, i: int, k: int) -> u8
    decreases k,
{
    if k <= 0 {
        0
    } else {
        gf_add(dot_at(coef, y, i, k - 1), gf_mul(coef[k - 1], y[k - 1][i]))
    }
}

/// `y` is `l` symbols of `t` octets.
pub open spec fn shaped(y: Seq<Seq<u8>>, l: int, t: int) -> bool {
    y.len() == l && forall|k: int| 0 <= k < l ==> (#[trigger] y[k]).len() == t
}

/// `y` satisfies the equation `row`.
pub open spec fn row_holds(row: Seq<u8>, y: Seq<Seq<u8>>, l: int, t: int) -> bool {
    forall|i: int| 0 <= i < t ==> #[trigger] dot_at(row, y, i, l) == row[l + i]
}

/// `y` has the right shape and satisfies every equation of `rows`.
pub open spec fn solves(rows: Seq<Seq<u8>>, y: Seq<Seq<u8>>, l: int, t: int) -> bool {
    shaped(y, l, t) && forall|r: int| 0 <= r < rows.len() ==> row_holds(#[trigger] rows[r], y, l, t)
}

/// `y` is the one and only solution of `rows`.
pub open spec fn unique_solution(rows: Seq<Seq<u8>>, y: Seq<Seq<u8>>, l: int, t: int) -> bool {
    solves(rows, y, l, t) && forall|z: Seq<Seq<u8>>| #[trigger] solves(rows, z, l, t) ==> z == y
}

/// The two systems have the same solutions.
pub open spec fn same_solutions(a: Seq<Seq<u8>>, b: Seq<Seq<u8>>, l: int, t: int) -> bool {
    forall|y: Seq<Seq<u8>>| #[trigger] solves(a, y, l, t) <==> solves(b, y, l, t)
}

/// Every row of `rows` has `width` octets.
pub open spec fn rows_have_width(rows: Seq<Seq<u8>>, width: int) -> bool {
    forall|r: int| 0 <= r < rows.len() ==> (#[trigger] rows[r]).len() == width
}

/// The row `x` plus `f` times the row `s`.
pub open spec fn axpy(x: Seq<u8>, s: Seq<u8>, f: u8) -> Seq<u8> {
    Seq::new(x.len(), |k: int| gf_add(x[k], gf_mul(f, s[k])))
}

/// The row `x` times `f`.
pub open spec fn scaled(x: Seq<u8>, f: u8) -> Seq<u8> {
    Seq::new(x.len(), |k: int| gf_mul(f, x[k]))
}

/// The symbol that the coefficients of `coef` combine the `l` symbols of `y` into.
pub open spec fn combination(coef: Seq<u8>, y: Seq<Seq<u8>>, l: int, t: int) -> Seq<u8> {
    Seq::new(t as nat, |i: int| dot_at(coef, y, i, l))
}

/// The symbol-wise sum of two candidate solutions.
pub open spec fn sum_of(y: Seq<Seq<u8>>, v: Seq<Seq<u8>>) -> Seq<Seq<u8>> {
    Seq::new(y.len(), |k: int| Seq::new(y[k].len(), |i: int| gf_add(y[k][i], v[k][i])))
}

/// The terms of a fourfold exclusive or can change places.
proof fn lemma_xor_exchange(a: u8, b: u8, c: u8, d: u8)
    by (bit_vector)
    ensures
        (a ^ b) ^ (c ^ d) == (a ^ c) ^ (b ^ d),
{
}

/// The combination is linear in the coefficients: row addition.
pub proof fn lemma_dot_axpy(x: Seq<u8>, s: Seq<u8>, f: u8, y: Seq<Seq<u8>>, i: int, k: int)
    requires
        0 <= k <= x.len(),
    ensures
        dot_at(axpy(x, s, f), y, i, k) == gf_add(dot_at(x, y, i, k), gf_mul(f, dot_at(s, y, i, k))),
    decreases k,
{
    if k == 0 {
        lemma_mul_zero_one(f);
        lemma_xor_laws(0, 0, 0);
    } else {
        lemma_dot_axpy(x, s, f, y, i, k - 1);
        let c = y[k - 1][i];
        let big_x = dot_at(x, y, i, k - 1);
        let big_s = dot_at(s, y, i, k - 1);
        lemma_mul_distributive(c, x[k - 1], gf_mul(f, s[k - 1]));
        lemma_mul_associative(f, s[k - 1], c);
        lemma_mul_distributive(f, big_s, gf_mul(s[k - 1], c));
        lemma_xor_exchange(big_x, gf_mul(f, big_s), gf_mul(x[k - 1], c), gf_mul(f, gf_mul(s[k - 1], c)));
    }
}

/// The combination is linear in the coefficients: scaling.
pub proof fn lemma_dot_scaled(x: Seq<u8>, f: u8, y: Seq<Seq<u8>>, i: int, k: int)
    requires
        0 <= k <= x.len(),
    ensures
        dot_at(scaled(x, f), y, i, k) == gf_mul(f, dot_at(x, y, i, k)),
    decreases k,
{
    if k == 0 {
        lemma_mul_zero_one(f);
    } else {
        lemma_dot_scaled(x, f, y, i, k - 1);
        let c = y[k - 1][i];
        lemma_mul_associative(f, x[k - 1], c);
        lemma_mul_distributive(f, dot_at(x, y, i, k - 1), gf_mul(x[k - 1], c));
    }
}

/// The combination is linear in the unknowns.
pub proof fn lemma_dot_sum(coef: Seq<u8>, y: Seq<Seq<u8>>, v: Seq<Seq<u8>>, i: int, k: int)
    requires
        0 <= k <= y.len(),
        0 <= i,
        forall|j: int| 0 <= j < k ==> i < (#[trigger] y[j]).len(),
    ensures
        dot_at(coef, sum_of(y, v), i, k) == gf_add(dot_at(coef, y, i, k), dot_at(coef, v, i, k)),
    decreases k,
{
    if k == 0 {
        lemma_xor_laws(0, 0, 0);
    } else {
        lemma_dot_sum(coef, y, v, i, k - 1);
        let a = coef[k - 1];
        assert(i < y[k - 1].len());
        assert(sum_of(y, v)[k - 1][i] == gf_add(y[k - 1][i], v[k - 1][i]));
        lemma_mul_distributive(a, y[k - 1][i], v[k - 1][i]);
        lemma_xor_exchange(
            dot_at(coef, y, i, k - 1),
            dot_at(coef, v, i, k - 1),
            gf_mul(a, y[k - 1][i]),
            gf_mul(a, v[k - 1][i]),
        );
    }
}

/// Terms with a zero factor add nothing to the combination.
pub proof fn lemma_dot_skip(coef: Seq<u8>, y: Seq<Seq<u8>>, i: int, a: int, b: int)
    requires
        0 <= a <= b,
        forall|k: int| a <= k < b ==> coef[k] == 0 || y[k][i] == 0,
    ensures
        dot_at(coef, y, i, b) == dot_at(coef, y, i, a),
    decreases b - a,
{
    if a < b {
        lemma_dot_skip(coef, y, i, a, b - 1);
        lemma_mul_zero_one(coef[b - 1]);
        lemma_mul_zero_one(y[b - 1][i]);
        lemma_xor_laws(dot_at(coef, y, i, b - 1), 0, 0);
    }
}

/// The combination reads only the first `k` coefficients.
pub proof fn lemma_dot_prefix(p: Seq<u8>, q: Seq<u8>, y: Seq<Seq<u8>>, i: int, k: int)
    requires
        forall|j: int| 0 <= j < k ==> p[j] == q[j],
    ensures
        dot_at(p, y, i, k) == dot_at(q, y, i, k),
    decreases k,
{
    if k > 0 {
        lemma_dot_prefix(p, q, y, i, k - 1);
    }
}

/// A solution of two equations solves their combination.
pub proof fn lemma_row_axpy(x: Seq<u8>, s: Seq<u8>, f: u8, y: Seq<Seq<u8>>, l: int, t: int)
    requires
        0 <= l,
        0 <= t,
        x.len() == l + t,
        s.len() == l + t,
        row_holds(x, y, l, t),
        row_holds(s, y, l, t),
    ensures
        row_holds(axpy(x, s, f), y, l, t),
{
    assert forall|i: int| 0 <= i < t implies #[trigger] dot_at(axpy(x, s, f), y, i, l) == axpy(
        x,
        s,
        f,
    )[l + i] by {
        lemma_dot_axpy(x, s, f, y, i, l);
        assert(dot_at(x, y, i, l) == x[l + i]);
        assert(dot_at(s, y, i, l) == s[l + i]);
    }
}

/// A solution of an equation solves its multiples.
pub proof fn lemma_row_scaled(x: Seq<u8>, f: u8, y: Seq<Seq<u8>>, l: int, t: int)
    requires
        0 <= l,
        0 <= t,
        x.len() == l + t,
        row_holds(x, y, l, t),
    ensures
        row_holds(scaled(x, f), y, l, t),
{
    assert forall|i: int| 0 <= i < t implies #[trigger] dot_at(scaled(x, f), y, i, l) == scaled(
        x,
        f,
    )[l + i] by {
        lemma_dot_scaled(x, f, y, i, l);
        assert(dot_at(x, y, i, l) == x[l + i]);
    }
}

/// Adding the same multiple of a row twice gives the row back.
pub proof fn lemma_axpy_twice(x: Seq<u8>, s: Seq<u8>, f: u8)
    requires
        x.len() == s.len(),
    ensures
        axpy(axpy(x, s, f), s, f) == x,
{
    let z = axpy(axpy(x, s, f), s, f);
    assert forall|k: int| 0 <= k < x.len() implies z[k] == x[k] by {
        lemma_xor_laws(x[k], gf_mul(f, s[k]), 0);
    }
    assert(z =~= x);
}

/// Scaling by a nonzero factor and then by its inverse gives the row back.
pub proof fn lemma_scaled_back(x: Seq<u8>, f: u8)
    requires
        f != 0,
    ensures
        scaled(scaled(x, f), gf_inv(f)) == x,
{
    let z = scaled(scaled(x, f), gf_inv(f));
    assert forall|k: int| 0 <= k < x.len() implies z[k] == x[k] by {
        lemma_mul_associative(gf_inv(f), f, x[k]);
        lemma_mul_inverse(f);
        lemma_mul_zero_one(x[k]);
    }
    assert(z =~= x);
}

/// Replacing a row by itself plus a multiple of another row keeps the solutions.
pub proof fn lemma_axpy_same_solutions(
    rows: Seq<Seq<u8>>,
    target: int,
    src: int,
    f: u8,
    l: int,
    t: int,
)
    requires
        0 <= l,
        0 <= t,
        0 <= target < rows.len(),
        0 <= src < rows.len(),
        target != src,
        rows_have_width(rows, l + t),
    ensures
        same_solutions(rows, rows.update(target, axpy(rows[target], rows[src], f)), l, t),
{
    let x = rows[target];
    let s = rows[src];
    let after = rows.update(target, axpy(x, s, f));
    assert forall|y: Seq<Seq<u8>>| #[trigger] solves(rows, y, l, t) <==> solves(after, y, l, t) by {
        if solves(rows, y, l, t) {
            assert(row_holds(rows[target], y, l, t));
            assert(row_holds(rows[src], y, l, t));
            lemma_row_axpy(x, s, f, y, l, t);
            assert forall|r: int| 0 <= r < after.len() implies row_holds(
                #[trigger] after[r],
                y,
                l,
                t,
            ) by {
                if r != target {
                    assert(after[r] == rows[r]);
                }
            }
        }
        if solves(after, y, l, t) {
            assert(row_holds(after[target], y, l, t));
            assert(after[src] == s);
            assert(row_holds(after[src], y, l, t));
            lemma_row_axpy(axpy(x, s, f), s, f, y, l, t);
            lemma_axpy_twice(x, s, f);
            assert forall|r: int| 0 <= r < rows.len() implies row_holds(
                #[trigger] rows[r],
                y,
                l,
                t,
            ) by {
                if r != target {
                    assert(after[r] == rows[r]);
                }
            }
        }
    }
}

/// Replacing a row by a nonzero multiple of itself keeps the solutions.
pub proof fn lemma_scaled_same_solutions(rows: Seq<Seq<u8>>, r0: int, f: u8, l: int, t: int)
    requires
        0 <= l,
        0 <= t,
        0 <= r0 < rows.len(),
        f != 0,
        rows_have_width(rows, l + t),
    ensures
        same_solutions(rows, rows.update(r0, scaled(rows[r0], f)), l, t),
{
    let x = rows[r0];
    let after = rows.update(r0, scaled(x, f));
    assert forall|y: Seq<Seq<u8>>| #[trigger] solves(rows, y, l, t) <==> solves(after, y, l, t) by {
        if solves(rows, y, l, t) {
            assert(row_holds(rows[r0], y, l, t));
            lemma_row_scaled(x, f, y, l, t);
            assert forall|r: int| 0 <= r < after.len() implies row_holds(
                #[trigger] after[r],
                y,
                l,
                t,
            ) by {
                if r != r0 {
                    assert(after[r] == rows[r]);
                }
            }
        }
        if solves(after, y, l, t) {
            assert(row_holds(after[r0], y, l, t));
            lemma_row_scaled(scaled(x, f), gf_inv(f), y, l, t);
            lemma_scaled_back(x, f);
            assert forall|r: int| 0 <= r < rows.len() implies row_holds(
                #[trigger] rows[r],
                y,
                l,
                t,
            ) by {
                if r != r0 {
                    assert(after[r] == rows[r]);
                }
            }
        }
    }
}

} // verus!
