//! The parameters of a source block: its systematic size `K'` and what the
//! size table and the primes derive from it.
use crate::tables::{
    lemma_rows_in_shape, lemma_sizes_increase, row_in_shape, MAX_K, SIZES, SIZE_H, SIZE_J, SIZE_K,
    SIZE_S, SIZE_W,
};
use vstd::prelude::*;

verus! {

/// The bound below which the code looks for primes.
pub const PRIME_LIMIT: u32 = 65536;

/// `n` is a prime number.
pub open spec fn is_prime(n: int) -> bool {
    n >= 2 && forall|d: int| 2 <= d < n ==> #[trigger] (n % d) != 0
}

/// The smallest prime from `n` on that is below `limit`, or `limit` when there is none.
pub open spec fn first_prime_from(n: int, limit: int) -> int
    decreases limit - n,
{
    if n >= limit {
        limit
    } else if is_prime(n) {
        n
    } else {
        first_prime_from(n + 1, limit)
    }
}

/// The parameters of a source block.
#[derive(Clone, Copy, Debug, PartialEq, Eq, Structural)]
pub struct BlockParams {
    /// `K'`: the number of source symbols, padding included.
    pub k: u32,
    /// `J(K')`: the systematic index.
    pub j: u32,
    /// `S(K')`: the number of LDPC symbols.
    pub s: u32,
    /// `H(K')`: the number of HDPC symbols.
    pub h: u32,
    /// `W(K')`: the number of LT symbols.
    pub w: u32,
    /// The smallest prime that is at least `P`, the number of PI symbols.
    pub prime: u32,
}

impl BlockParams {
    /// `L`: the number of intermediate symbols.
    pub open spec fn l(self) -> int {
        self.k + self.s + self.h
    }

    /// `P`: the number of PI symbols.
    pub open spec fn p(self) -> int {
        self.l() - self.w
    }

    /// `B`: the number of LT symbols that are not LDPC symbols.
    pub open spec fn b(self) -> int {
        self.w - self.s
    }

    /// The parameters are those of row `i` of the size table.
    pub open spec fn is_row(self, i: int) -> bool {
        &&& 0 <= i < SIZES
        &&& self.k == SIZE_K[i]
        &&& self.j == SIZE_J[i]
        &&& self.s == SIZE_S[i]
        &&& self.h == SIZE_H[i]
        &&& self.w == SIZE_W[i]
        &&& self.prime == first_prime_from(self.p(), PRIME_LIMIT as int)
    }

    /// The parameters are those of a row of the size table.
    pub open spec fn wf(self) -> bool {
        exists|i: int| self.is_row(i)
    }

    /// The parameters of the smallest supported block size that is at least `n`.
    pub open spec fn fits(self, n: int) -> bool {
        &&& self.wf()
        &&& n <= self.k
        &&& forall|i: int| 0 <= i < SIZES && n <= SIZE_K[i] ==> self.k <= #[trigger] SIZE_K[i]
    }

    /// What the construction of the code relies on.
    pub proof fn lemma_shape(self)
        requires
            self.wf(),
        ensures
            10 <= self.k <= MAX_K,
            self.j < 1024,
            7 <= self.s < 128,
            10 <= self.h <= 16,
            17 <= self.w,
            self.s < self.w,
            self.w <= self.k + self.s,
            self.h <= self.p() < 144,
            self.p() <= self.prime <= PRIME_LIMIT,
            1 <= self.b() <= self.k,
            self.l() < 3000,
            is_prime(self.prime as int),
            forall|m: int| self.p() <= m < self.prime ==> !is_prime(m),
    {
        let i = choose|i: int| self.is_row(i);
        lemma_rows_in_shape(i);
        assert(row_in_shape(i));
        lemma_first_prime_from(self.p(), PRIME_LIMIT as int);
        lemma_prime_above_all();
        if self.prime > 149 {
            assert(!is_prime(149));
        }
    }

    /// The number of intermediate symbols.
    pub fn intermediate_symbols(&self) -> (l: usize)
        requires
            self.wf(),
        ensures
            l == self.l(),
    {
        proof {
            self.lemma_shape();
        }
        (self.k + self.s + self.h) as usize
    }

    /// The number of PI symbols.
    pub fn pi_symbols(&self) -> (p: u32)
        requires
            self.wf(),
        ensures
            p == self.p(),
    {
        proof {
            self.lemma_shape();
        }
        self.k + self.s + self.h - self.w
    }

    /// The parameters of the smallest supported block size that holds `n`
    /// symbols; `None` when `n` is above the largest supported size.
    pub fn for_symbols(n: u32) -> (res: Option<BlockParams>)
        ensures
            res is Some <==> n <= MAX_K,
            res is Some ==> res->0.fits(n as int),
    {
        let mut i: usize = 0;
        while i < SIZES
            invariant
                i <= SIZES,
                forall|q: int| 0 <= q < i ==> #[trigger] SIZE_K[q] < n,
            decreases SIZES - i,
        {
            if SIZE_K[i] >= n {
                proof {
                    lemma_rows_in_shape(i as int);
                }
                let p: u32 = SIZE_K[i] + SIZE_S[i] + SIZE_H[i] - SIZE_W[i];
                let params = BlockParams {
                    k: SIZE_K[i],
                    j: SIZE_J[i],
                    s: SIZE_S[i],
                    h: SIZE_H[i],
                    w: SIZE_W[i],
                    prime: prime_from(p),
                };
                proof {
                    assert(params.is_row(i as int));
                    assert forall|q: int| 0 <= q < SIZES && n <= SIZE_K[q] implies params.k
                        <= #[trigger] SIZE_K[q] by {
                        if q > i {
                            lemma_sizes_increase(i as int, q);
                        }
                    }
                    lemma_rows_in_shape(i as int);
                }
                return Some(params);
            }
            i += 1;
        }
        proof {
            lemma_rows_in_shape(SIZES - 1);
            assert(SIZE_K[SIZES - 1] == MAX_K);
        }
        None
    }
}

/// The parameters of the smallest supported block size that holds `n` symbols.
pub open spec fn params_for(n: int) -> BlockParams {
    choose|p: BlockParams| p.fits(n)
}

/// The number of symbols of `t` octets that `len` octets fill, the last one
/// possibly in part.
pub open spec fn symbols_needed(len: int, t: int) -> int {
    if len % t == 0 {
        len / t
    } else {
        len / t + 1
    }
}

/// At most one set of parameters fits a number of symbols.
pub proof fn lemma_fits_unique(p: BlockParams, q: BlockParams, n: int)
    requires
        p.fits(n),
        q.fits(n),
    ensures
        p == q,
        p == params_for(n),
{
    let i = choose|i: int| p.is_row(i);
    let j = choose|j: int| q.is_row(j);
    assert(p.k <= SIZE_K[j]);
    assert(q.k <= SIZE_K[i]);
    if i < j {
        lemma_sizes_increase(i, j);
    }
    if j < i {
        lemma_sizes_increase(j, i);
    }
    let r = params_for(n);
    let m = choose|m: int| r.is_row(m);
    assert(p.k <= SIZE_K[m]);
    assert(r.k <= SIZE_K[i]);
    if i < m {
        lemma_sizes_increase(i, m);
    }
    if m < i {
        lemma_sizes_increase(m, i);
    }
}

/// From row `i` on, with all rows before it too small, some row fits `n` symbols.
proof fn lemma_fit_from(n: int, i: int)
    requires
        0 <= i < SIZES,
        n <= MAX_K,
        forall|q: int| 0 <= q < i ==> #[trigger] SIZE_K[q] < n,
    ensures
        exists|p: BlockParams| p.fits(n),
    decreases SIZES - i,
{
    lemma_rows_in_shape(SIZES - 1);
    assert(SIZE_K[SIZES - 1] == MAX_K);
    if SIZE_K[i] >= n {
        lemma_rows_in_shape(i);
        let p0 = BlockParams {
            k: SIZE_K[i],
            j: SIZE_J[i],
            s: SIZE_S[i],
            h: SIZE_H[i],
            w: SIZE_W[i],
            prime: 0,
        };
        lemma_first_prime_from(p0.p(), PRIME_LIMIT as int);
        let p = BlockParams { prime: first_prime_from(p0.p(), PRIME_LIMIT as int) as u32, ..p0 };
        assert(p.p() == p0.p());
        assert(p.is_row(i));
        assert forall|q: int| 0 <= q < SIZES && n <= SIZE_K[q] implies p.k <= #[trigger] SIZE_K[q] by {
            if q > i {
                lemma_sizes_increase(i, q);
            }
        }
        assert(p.fits(n));
    } else {
        lemma_fit_from(n, i + 1);
    }
}

/// Every number of symbols up to the largest supported block size has its parameters.
pub proof fn lemma_params_for(n: int)
    requires
        n <= MAX_K,
    ensures
        params_for(n).fits(n),
{
    lemma_fit_from(n, 0);
}

/// The number of symbols of `t` octets that `len` octets fill.
pub fn symbols_for(len: u64, t: u16) -> (n: u64)
    requires
        0 < t,
    ensures
        n == symbols_needed(len as int, t as int),
        n * t >= len,
        len > 0 ==> (n - 1) * t < len,
{
    let q: u64 = len / (t as u64);
    let r: u64 = len % (t as u64);
    assert(len == q * t + r) by (nonlinear_arith)
        requires
            q == len / (t as u64),
            r == len % (t as u64),
            t > 0,
    ;
    if r == 0 {
        assert(len > 0 ==> (q - 1) * t < len) by (nonlinear_arith)
            requires
                len == q * t,
                t > 0,
        ;
        q
    } else {
        assert((q + 1) * t >= len && q * t < len && q < len) by (nonlinear_arith)
            requires
                len == q * t + r,
                0 < r < t,
                0 <= q,
        ;
        q + 1
    }
}

/// 149 is a prime number; no row of the size table has more PI symbols.
pub proof fn lemma_prime_above_all()
    ensures
        is_prime(149),
{
    assert forall|d: int| 2 <= d < 149 implies #[trigger] (149int % d) != 0 by {
        let e = d as u8;
        assert(2 <= e < 149 ==> 149u8 % e != 0) by (bit_vector);
        assert(149u8 % e == 149int % d);
    }
}

/// The first prime from `n` on lies between `n` and the limit.
pub proof fn lemma_first_prime_from(n: int, limit: int)
    requires
        n <= limit,
    ensures
        n <= first_prime_from(n, limit) <= limit,
        first_prime_from(n, limit) < limit ==> is_prime(first_prime_from(n, limit)),
        forall|m: int| n <= m < first_prime_from(n, limit) ==> !is_prime(m),
    decreases limit - n,
{
    if n < limit && !is_prime(n) {
        lemma_first_prime_from(n + 1, limit);
    }
}

/// Whether `n` is a prime number.
pub fn prime(n: u32) -> (res: bool)
    ensures
        res == is_prime(n as int),
{
    if n < 2 {
        return false;
    }
    let mut d: u32 = 2;
    while d < n
        invariant
            2 <= d <= n,
            forall|e: int| 2 <= e < d ==> #[trigger] (n as int % e) != 0,
        decreases n - d,
    {
        if n % d == 0 {
            return false;
        }
        d += 1;
    }
    true
}

/// The smallest prime from `n` on that is below the limit, or the limit.
pub fn prime_from(n: u32) -> (res: u32)
    requires
        n <= PRIME_LIMIT,
    ensures
        res == first_prime_from(n as int, PRIME_LIMIT as int),
{
    let mut m: u32 = n;
    while m < PRIME_LIMIT
        invariant
            n <= m <= PRIME_LIMIT,
            first_prime_from(m as int, PRIME_LIMIT as int) == first_prime_from(
                n as int,
                PRIME_LIMIT as int,
            ),
        decreases PRIME_LIMIT - m,
    {
        if prime(m) {
            return m;
        }
        m += 1;
    }
    m
}

} // verus!
