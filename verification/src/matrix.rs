//! The rows of the constraint matrix of a block: the LDPC and HDPC rows, which
//! depend on the block size alone, and the LT row of each encoding symbol.
//!
//! A row holds one coefficient for each of the `L` intermediate symbols.
use crate::gf256::{
    alpha_pow, alpha_power, gf_add, gf_mul, lemma_mul_alpha, lemma_mul_associative,
    lemma_mul_commutative, lemma_mul_distributive, lemma_mul_zero_one, lemma_xor_laws, multiply,
    xtime,
};
use crate::params::BlockParams;
use crate::rand::{rand, rand_spec, tuple, tuple_spec};
use vstd::prelude::*;

verus! {

/// The row `row` with one added to its entry at `idx`; an index outside the
/// row changes nothing.
pub open spec fn toggled(row: Seq<u8>, idx: int) -> Seq<u8> {
    if 0 <= idx < row.len() {
        row.update(idx, gf_add(row[idx], 1))
    } else {
        row
    }
}

/// The row after `n` more steps of the walk over the LT symbols: each step
/// moves from `b` by `a` modulo `w` and adds one at the new place.
pub open spec fn lt_walk(row: Seq<u8>, a: int, b: int, w: int, n: nat) -> Seq<u8>
    decreases n,
{
    if n == 0 {
        row
    } else {
        let nb = (b + a) % w;
        lt_walk(toggled(row, nb), a, nb, w, (n - 1) as nat)
    }
}

/// The first place below `p` that the walk over the PI symbols reaches from
/// `b1` in steps of `a1` modulo `modulus`, within `fuel` steps. With `modulus` prime,
/// `modulus` steps always reach one.
pub open spec fn pi_settle(b1: int, a1: int, p: int, modulus: int, fuel: nat) -> int
    decreases fuel,
{
    if b1 < p || fuel == 0 {
        b1
    } else {
        pi_settle((b1 + a1) % modulus, a1, p, modulus, (fuel - 1) as nat)
    }
}

/// The row after `n` more steps of the walk over the PI symbols, which stand
/// from column `w` on.
pub open spec fn pi_walk(row: Seq<u8>, a1: int, b1: int, w: int, p: int, modulus: int, n: nat) -> Seq<
    u8,
>
    decreases n,
{
    if n == 0 {
        row
    } else {
        let nb = pi_settle((b1 + a1) % modulus, a1, p, modulus, modulus as nat);
        pi_walk(pi_toggled(row, w, p, nb), a1, nb, w, p, modulus, (n - 1) as nat)
    }
}

/// The row with one added at PI symbol `b1`, when the walk has reached one.
pub open spec fn pi_toggled(row: Seq<u8>, w: int, p: int, b1: int) -> Seq<u8> {
    if b1 < p {
        toggled(row, w + b1)
    } else {
        row
    }
}

/// The row of `l` zeros.
pub open spec fn zero_row(l: int) -> Seq<u8> {
    Seq::new(l as nat, |c: int| 0u8)
}

/// The LT row of the encoding symbol with internal identifier `x`: the
/// coefficients with which the symbol combines the intermediate symbols.
pub open spec fn lt_row_spec(p: BlockParams, x: int) -> Seq<u8> {
    let t = tuple_spec(p, x);
    let w = p.w as int;
    let r1 = lt_walk(toggled(zero_row(p.l()), t.b as int), t.a as int, t.b as int, w, (t.d - 1) as nat);
    let nb = pi_settle(t.b1 as int, t.a1 as int, p.p(), p.prime as int, p.prime as nat);
    pi_walk(pi_toggled(r1, w, p.p(), nb), t.a1 as int, nb, w, p.p(), p.prime as int, (t.d1 - 1) as nat)
}

/// Toggling keeps the length of a row.
pub proof fn lemma_walk_lengths(row: Seq<u8>, a: int, b: int, w: int, p: int, modulus: int, n: nat)
    ensures
        lt_walk(row, a, b, w, n).len() == row.len(),
        pi_walk(row, a, b, w, p, modulus, n).len() == row.len(),
    decreases n,
{
    if n > 0 {
        let nb = (b + a) % w;
        lemma_walk_lengths(toggled(row, nb), a, nb, w, p, modulus, (n - 1) as nat);
        let nb1 = pi_settle((b + a) % modulus, a, p, modulus, modulus as nat);
        lemma_walk_lengths(pi_toggled(row, w, p, nb1), a, nb1, w, p, modulus, (n - 1) as nat);
    }
}

/// An LT row has `L` coefficients.
pub proof fn lemma_lt_row_len(p: BlockParams, x: int)
    requires
        p.wf(),
    ensures
        lt_row_spec(p, x).len() == p.l(),
{
    p.lemma_shape();
    let t = tuple_spec(p, x);
    let w = p.w as int;
    let r0 = toggled(zero_row(p.l()), t.b as int);
    lemma_walk_lengths(r0, t.a as int, t.b as int, w, p.p(), p.prime as int, (t.d - 1) as nat);
    let r1 = lt_walk(r0, t.a as int, t.b as int, w, (t.d - 1) as nat);
    let nb = pi_settle(t.b1 as int, t.a1 as int, p.p(), p.prime as int, p.prime as nat);
    lemma_walk_lengths(
        pi_toggled(r1, w, p.p(), nb),
        t.a1 as int,
        nb,
        w,
        p.p(),
        p.prime as int,
        (t.d1 - 1) as nat,
    );
}

/// Adds one to the entry of `row` at `idx`.
fn toggle(row: &mut Vec<u8>, idx: usize)
    requires
        idx < old(row)@.len(),
    ensures
        final(row)@ == toggled(old(row)@, idx as int),
{
    let v: u8 = row[idx] ^ 1;
    row.set(idx, v);
}

/// The first place below `p` that the walk over the PI symbols reaches from `b1`.
fn settle(b1: u32, a1: u32, p: u32, modulus: u32) -> (r: u32)
    requires
        b1 < modulus,
        a1 < modulus,
        modulus <= 65536,
    ensures
        r == pi_settle(b1 as int, a1 as int, p as int, modulus as int, modulus as nat),
        r < modulus,
{
    let mut b: u32 = b1;
    let mut fuel: u32 = modulus;
    while b >= p && fuel > 0
        invariant
            b < modulus,
            a1 < modulus,
            modulus <= 65536,
            pi_settle(b as int, a1 as int, p as int, modulus as int, fuel as nat) == pi_settle(
                b1 as int,
                a1 as int,
                p as int,
                modulus as int,
                modulus as nat,
            ),
        decreases fuel,
    {
        b = (b + a1) % modulus;
        fuel -= 1;
    }
    b
}

/// The LT row of the encoding symbol with internal identifier `x`.
pub fn lt_row(p: &BlockParams, x: u32) -> (row: Vec<u8>)
    requires
        p.wf(),
    ensures
        row@ == lt_row_spec(*p, x as int),
        row@.len() == p.l(),
{
    proof {
        p.lemma_shape();
        lemma_lt_row_len(*p, x as int);
    }
    let t = tuple(p, x);
    let l: usize = p.intermediate_symbols();
    let pi: u32 = p.pi_symbols();
    let mut row: Vec<u8> = Vec::new();
    let mut c: usize = 0;
    while c < l
        invariant
            c <= l,
            row@.len() == c,
            forall|q: int| 0 <= q < c ==> row@[q] == 0,
        decreases l - c,
    {
        row.push(0);
        c += 1;
    }
    assert(row@ =~= zero_row(p.l()));
    let mut b: u32 = t.b;
    toggle(&mut row, b as usize);
    let ghost lt_goal = lt_walk(row@, t.a as int, t.b as int, p.w as int, (t.d - 1) as nat);
    let mut j: u32 = 1;
    while j < t.d
        invariant
            1 <= j <= t.d,
            b < p.w,
            t.a < p.w,
            p.w <= l,
            p.w < 3000,
            row@.len() == l,
            lt_walk(row@, t.a as int, b as int, p.w as int, (t.d - j) as nat) == lt_goal,
        decreases t.d - j,
    {
        b = (b + t.a) % p.w;
        toggle(&mut row, b as usize);
        j += 1;
    }
    let mut b1: u32 = settle(t.b1, t.a1, pi, p.prime);
    if b1 < pi {
        toggle(&mut row, (p.w + b1) as usize);
    }
    let ghost pi_goal = pi_walk(
        row@,
        t.a1 as int,
        b1 as int,
        p.w as int,
        pi as int,
        p.prime as int,
        (t.d1 - 1) as nat,
    );
    let mut j1: u32 = 1;
    while j1 < t.d1
        invariant
            1 <= j1 <= t.d1,
            b1 < p.prime,
            t.a1 < p.prime,
            p.prime <= 65536,
            p.w + pi == l,
            l < 3000,
            row@.len() == l,
            pi_walk(
                row@,
                t.a1 as int,
                b1 as int,
                p.w as int,
                pi as int,
                p.prime as int,
                (t.d1 - j1) as nat,
            ) == pi_goal,
        decreases t.d1 - j1,
    {
        b1 = settle((b1 + t.a1) % p.prime, t.a1, pi, p.prime);
        if b1 < pi {
            toggle(&mut row, (p.w + b1) as usize);
        }
        j1 += 1;
    }
    row
}

/// One for a true condition, zero for a false one.
pub open spec fn bit(c: bool) -> u8 {
    if c {
        1u8
    } else {
        0u8
    }
}

/// One for a true condition, zero for a false one.
fn flag(c: bool) -> (r: u8)
    ensures
        r == bit(c),
{
    if c {
        1
    } else {
        0
    }
}

/// The coefficient of intermediate symbol `c` in LDPC row `i`.
///
/// Each of the first `B` symbols enters three LDPC rows, spaced by a step
/// that grows with the symbol's index; LDPC symbol `i` enters row `i`; and
/// row `i` takes two neighbouring PI symbols.
pub open spec fn ldpc_entry(p: BlockParams, i: int, c: int) -> u8 {
    let s = p.s as int;
    if c < p.b() {
        let a = 1 + c / s;
        let b0 = c % s;
        gf_add(gf_add(bit(b0 == i), bit((b0 + a) % s == i)), bit((b0 + 2 * a) % s == i))
    } else if c < p.w {
        bit(c - p.b() == i)
    } else {
        gf_add(bit(c - p.w == i % p.p()), bit(c - p.w == (i + 1) % p.p()))
    }
}

/// LDPC row `i`.
pub open spec fn ldpc_row_spec(p: BlockParams, i: int) -> Seq<u8> {
    Seq::new(p.l() as nat, |c: int| ldpc_entry(p, i, c))
}

/// LDPC row `i`, for `i` below `S`.
pub fn ldpc_row(p: &BlockParams, i: u32) -> (row: Vec<u8>)
    requires
        p.wf(),
        i < p.s,
    ensures
        row@ == ldpc_row_spec(*p, i as int),
{
    proof {
        p.lemma_shape();
    }
    let l: u32 = p.k + p.s + p.h;
    let b: u32 = p.w - p.s;
    let pi: u32 = l - p.w;
    let mut row: Vec<u8> = Vec::new();
    let mut c: u32 = 0;
    while c < l
        invariant
            c <= l,
            l == p.l(),
            l < 3000,
            b == p.b(),
            pi == p.p(),
            0 < pi,
            0 < p.s,
            i < p.s,
            row@.len() == c,
            forall|q: int| 0 <= q < c ==> row@[q] == ldpc_entry(*p, i as int, q),
        decreases l - c,
    {
        let e: u8 = if c < b {
            let a: u32 = 1 + c / p.s;
            let b0: u32 = c % p.s;
            flag(b0 == i) ^ flag((b0 + a) % p.s == i) ^ flag((b0 + 2 * a) % p.s == i)
        } else if c < p.w {
            flag(c - b == i)
        } else {
            flag(c - p.w == i % pi) ^ flag(c - p.w == (i + 1) % pi)
        };
        row.push(e);
        c += 1;
    }
    assert(row@ =~= ldpc_row_spec(*p, i as int));
    row
}

/// The entry in row `i` and column `k` of the sparse factor of the HDPC
/// rows: two pseudo-random rows hold a one in each column but the last, and
/// the last column holds the powers of `alpha`.
pub open spec fn mt_entry(p: BlockParams, i: int, k: int) -> u8 {
    if k == p.k + p.s - 1 {
        alpha_pow(i as nat)
    } else {
        let r1 = rand_spec(k + 1, 6, p.h as int);
        let r2 = (r1 + rand_spec(k + 1, 7, p.h - 1) + 1) % (p.h as int);
        bit(i == r1 || i == r2)
    }
}

/// The product of row `i` of the sparse factor with column `c` of the
/// triangular matrix of powers of `alpha`, over the columns from `c` up to,
/// but not including, `e`.
pub open spec fn hdpc_partial(p: BlockParams, i: int, c: int, e: int) -> u8
    decreases e - c,
{
    if e <= c {
        0
    } else {
        gf_add(
            hdpc_partial(p, i, c, e - 1),
            gf_mul(mt_entry(p, i, e - 1), alpha_pow((e - 1 - c) as nat)),
        )
    }
}

/// The coefficient of intermediate symbol `c` in HDPC row `i`: the matrix
/// product over the first `K' + S` symbols, then the identity over the HDPC
/// symbols.
pub open spec fn hdpc_entry(p: BlockParams, i: int, c: int) -> u8 {
    let n = p.k + p.s;
    if c < n {
        hdpc_partial(p, i, c, n)
    } else {
        bit(c - n == i)
    }
}

/// HDPC row `i`.
pub open spec fn hdpc_row_spec(p: BlockParams, i: int) -> Seq<u8> {
    Seq::new(p.l() as nat, |c: int| hdpc_entry(p, i, c))
}

/// The product at column `c` is the entry of the sparse factor there plus
/// `alpha` times the product at column `c + 1`.
proof fn lemma_hdpc_step(p: BlockParams, i: int, c: int, e: int)
    requires
        0 <= c < e,
    ensures
        hdpc_partial(p, i, c, e) == gf_add(mt_entry(p, i, c), gf_mul(2, hdpc_partial(p, i, c + 1, e))),
    decreases e - c,
{
    let m = mt_entry(p, i, e - 1);
    if e == c + 1 {
        lemma_mul_zero_one(m);
        lemma_mul_zero_one(2);
        lemma_xor_laws(m, 0, 0);
        assert(hdpc_partial(p, i, c, e - 1) == 0);
        assert(hdpc_partial(p, i, c + 1, e) == 0);
    } else {
        lemma_hdpc_step(p, i, c, e - 1);
        let q = (e - 2 - c) as nat;
        let low = hdpc_partial(p, i, c + 1, e - 1);
        assert(hdpc_partial(p, i, c + 1, e) == gf_add(low, gf_mul(m, alpha_pow(q))));
        lemma_mul_distributive(2, low, gf_mul(m, alpha_pow(q)));
        lemma_mul_associative(2, m, alpha_pow(q));
        lemma_mul_commutative(2, m);
        lemma_mul_associative(m, 2, alpha_pow(q));
        lemma_mul_alpha(alpha_pow(q));
        assert(alpha_pow(q + 1) == xtime(alpha_pow(q)));
        assert(gf_mul(2, gf_mul(m, alpha_pow(q))) == gf_mul(m, alpha_pow(q + 1)));
        lemma_xor_laws(mt_entry(p, i, c), gf_mul(2, low), gf_mul(m, alpha_pow(q + 1)));
    }
}

/// The entry in row `i` and column `k` of the sparse factor of the HDPC rows.
fn mt(p: &BlockParams, i: u32, k: u32) -> (r: u8)
    requires
        p.wf(),
        i < p.h,
        k < p.k + p.s,
    ensures
        r == mt_entry(*p, i as int, k as int),
{
    proof {
        p.lemma_shape();
    }
    if k == p.k + p.s - 1 {
        alpha_power(i as usize)
    } else {
        let r1: u32 = rand(k + 1, 6, p.h);
        let r2: u32 = (r1 + rand(k + 1, 7, p.h - 1) + 1) % p.h;
        flag(i == r1 || i == r2)
    }
}

/// HDPC row `i`, for `i` below `H`.
pub fn hdpc_row(p: &BlockParams, i: u32) -> (row: Vec<u8>)
    requires
        p.wf(),
        i < p.h,
    ensures
        row@ == hdpc_row_spec(*p, i as int),
{
    proof {
        p.lemma_shape();
    }
    let l: u32 = p.k + p.s + p.h;
    let n: u32 = p.k + p.s;
    let mut row: Vec<u8> = Vec::new();
    let mut c: u32 = 0;
    while c < l
        invariant
            c <= l,
            n <= l,
            row@.len() == c,
            forall|q: int| n <= q < c ==> row@[q] == bit(q - n == i),
        decreases l - c,
    {
        row.push(flag(c >= n && c - n == i));
        c += 1;
    }
    let mut acc: u8 = 0;
    let mut c: u32 = n;
    while c > 0
        invariant
            c <= n,
            n <= l,
            n == p.k + p.s,
            l == p.l(),
            p.wf(),
            i < p.h,
            row@.len() == l,
            acc == hdpc_partial(*p, i as int, c as int, n as int),
            forall|q: int| n <= q < l ==> row@[q] == bit(q - n == i),
            forall|q: int| c <= q < n ==> row@[q] == hdpc_partial(*p, i as int, q, n as int),
        decreases c,
    {
        c -= 1;
        let m: u8 = mt(p, i, c);
        proof {
            lemma_hdpc_step(*p, i as int, c as int, n as int);
        }
        acc = m ^ multiply(2, acc);
        row.set(c as usize, acc);
    }
    assert(row@ =~= hdpc_row_spec(*p, i as int));
    row
}

} // verus!
