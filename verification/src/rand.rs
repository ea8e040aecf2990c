//! The pseudo-random generator, the degree generator and the tuple generator.
//!
//! All three are pure functions of their arguments and the fixed tables, so
//! that an encoder and a decoder always derive the same tuple for the same
//! block size and symbol identifier.
use crate::params::BlockParams;
use crate::tables::{
    lemma_degree_bounds, v0, v0_at, v1, v1_at, v2, v2_at, v3, v3_at, DEGREE_BOUND,
};
use vstd::prelude::*;

verus! {

/// `Rand[y, i, m]`: a pseudo-random number below `m`.
pub open spec fn rand_spec(y: int, i: int, m: int) -> int {
    ((v0((y + i) % 256) ^ v1((y / 256 + i) % 256) ^ v2((y / 65536 + i) % 256) ^ v3(
        (y / 16777216 + i) % 256,
    )) as int) % m
}

/// `Rand[y, i, m]`: a pseudo-random number below `m`.
pub fn rand(y: u32, i: u32, m: u32) -> (r: u32)
    requires
        i < 256,
        0 < m,
    ensures
        r == rand_spec(y as int, i as int, m as int),
        r < m,
{
    let x0: usize = ((y % 256 + i) % 256) as usize;
    let x1: usize = ((y / 256 + i) % 256) as usize;
    let x2: usize = ((y / 65536 + i) % 256) as usize;
    let x3: usize = ((y / 16777216 + i) % 256) as usize;
    (v0_at(x0) ^ v1_at(x1) ^ v2_at(x2) ^ v3_at(x3)) % m
}

/// `d` is the degree that the distribution gives to `v`.
pub open spec fn is_degree_of(v: int, d: int) -> bool {
    1 <= d <= 30 && DEGREE_BOUND[d - 1] <= v < DEGREE_BOUND[d]
}

/// `Deg[v]` for a block with `w` LT symbols: the degree of `v`, capped at `w - 2`.
pub open spec fn deg_spec(v: int, w: int) -> int {
    let d = choose|d: int| is_degree_of(v, d);
    if d < w - 2 {
        d
    } else {
        w - 2
    }
}

/// The degree bounds are strictly increasing.
proof fn lemma_degree_bounds_increase(c: int, d: int)
    requires
        0 <= c < d <= 30,
    ensures
        DEGREE_BOUND[c] < DEGREE_BOUND[d],
    decreases d - c,
{
    lemma_degree_bounds(d - 1);
    if c < d - 1 {
        lemma_degree_bounds_increase(c, d - 1);
    }
}

/// Every value has at most one degree.
pub proof fn lemma_degree_unique(v: int, c: int, d: int)
    requires
        is_degree_of(v, c),
        is_degree_of(v, d),
    ensures
        c == d,
{
    if c < d {
        lemma_degree_bounds_increase(c, d - 1 + 1);
        if c < d - 1 {
            lemma_degree_bounds_increase(c, d - 1);
        }
    }
    if d < c {
        if d < c - 1 {
            lemma_degree_bounds_increase(d, c - 1);
        }
    }
}

/// `Deg[v]` for a block with `w` LT symbols.
pub fn deg(v: u32, w: u32) -> (r: u32)
    requires
        v < 1048576,
        3 <= w,
    ensures
        r == deg_spec(v as int, w as int),
        1 <= r <= 30,
        r <= w - 2,
{
    let mut d: usize = 1;
    proof {
        lemma_degree_bounds(0);
    }
    while DEGREE_BOUND[d] <= v
        invariant
            1 <= d <= 30,
            DEGREE_BOUND[d - 1] <= v < 1048576,
        decreases 30 - d,
    {
        proof {
            lemma_degree_bounds(29);
        }
        d += 1;
    }
    proof {
        assert(is_degree_of(v as int, d as int));
        let c = choose|c: int| is_degree_of(v as int, c);
        lemma_degree_unique(v as int, c, d as int);
    }
    if (d as u32) < w - 2 {
        d as u32
    } else {
        w - 2
    }
}

/// The tuple that says which intermediate symbols an encoding symbol combines.
#[derive(Clone, Copy, Debug, PartialEq, Eq, Structural)]
pub struct Tuple {
    /// The number of LT symbols combined.
    pub d: u32,
    /// The step between them.
    pub a: u32,
    /// The first of them.
    pub b: u32,
    /// The number of PI symbols combined.
    pub d1: u32,
    /// The step between them.
    pub a1: u32,
    /// Where the walk over them starts.
    pub b1: u32,
}

/// The multiplier `A` of the tuple generator.
pub open spec fn tuple_a(j: int) -> int {
    let a = 53591 + j * 997;
    if a % 2 == 0 {
        a + 1
    } else {
        a
    }
}

/// The seed `y` of the tuple generator.
pub open spec fn tuple_y(j: int, x: int) -> int {
    (10267 * (j + 1) + x * tuple_a(j)) % 0x1_0000_0000
}

/// `Tuple[K', X]`.
pub open spec fn tuple_spec(p: BlockParams, x: int) -> Tuple {
    let y = tuple_y(p.j as int, x);
    let v = rand_spec(y, 0, 1048576);
    let d = deg_spec(v, p.w as int);
    Tuple {
        d: d as u32,
        a: (1 + rand_spec(y, 1, p.w - 1)) as u32,
        b: rand_spec(y, 2, p.w as int) as u32,
        d1: if d < 4 {
            (2 + rand_spec(x, 3, 2)) as u32
        } else {
            2u32
        },
        a1: (1 + rand_spec(x, 4, p.prime - 1)) as u32,
        b1: rand_spec(x, 5, p.prime as int) as u32,
    }
}

/// `Tuple[K', X]` for the internal symbol identifier `x`.
pub fn tuple(p: &BlockParams, x: u32) -> (t: Tuple)
    requires
        p.wf(),
    ensures
        t == tuple_spec(*p, x as int),
        1 <= t.d <= p.w - 2,
        1 <= t.a < p.w,
        t.b < p.w,
        2 <= t.d1 <= 3,
        1 <= t.a1 < p.prime,
        t.b1 < p.prime,
{
    proof {
        p.lemma_shape();
    }
    let mut a: u64 = 53591 + (p.j as u64) * 997;
    if a % 2 == 0 {
        a = a + 1;
    }
    let b: u64 = 10267 * (p.j as u64 + 1);
    assert(a == tuple_a(p.j as int));
    assert((x as u64) * a <= 0xffff_ffff * 2_000_000) by (nonlinear_arith)
        requires
            x <= 0xffff_ffff,
            a <= 2_000_000,
    ;
    let y: u32 = ((b + (x as u64) * a) % 0x1_0000_0000) as u32;
    let v: u32 = rand(y, 0, 1048576);
    let d: u32 = deg(v, p.w);
    let a_lt: u32 = 1 + rand(y, 1, p.w - 1);
    let b_lt: u32 = rand(y, 2, p.w);
    let d1: u32 = if d < 4 {
        2 + rand(x, 3, 2)
    } else {
        2
    };
    let a1: u32 = 1 + rand(x, 4, p.prime - 1);
    let b1: u32 = rand(x, 5, p.prime);
    Tuple { d, a: a_lt, b: b_lt, d1, a1, b1 }
}

} // verus!
