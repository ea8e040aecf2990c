//! The transmission parameters of an object, and how the object is cut into
//! source blocks.
//!
//! The parameters are a function of the transfer length and the symbol size
//! alone, so that an encoder and a decoder that start from the same two
//! numbers agree on every block.
use crate::error::Error;
use crate::params::{symbols_for, symbols_needed};
use crate::tables::{lemma_rows_in_shape, lemma_sizes_increase, MAX_K, SIZES, SIZE_K};
use vstd::prelude::*;

verus! {

/// `Al`: every symbol size is a multiple of the alignment.
pub const ALIGNMENT: u16 = 8;

/// `SS * Al`: the size below which a symbol is not cut into sub-symbols.
pub const MIN_SUB_SYMBOL: u16 = 64;

/// `WS`: the working memory that one block may take, in octets.
pub const WORKING_MEMORY: u64 = 10485760;

/// The largest number of source blocks of an object.
pub const MAX_BLOCKS: u64 = 256;

/// `k` is a supported block size.
pub open spec fn is_table_size(k: int) -> bool {
    exists|i: int| 0 <= i < SIZES && #[trigger] SIZE_K[i] == k
}

/// `k` is the largest supported block size that is at most `bound`.
pub open spec fn is_largest_size_within(k: int, bound: int) -> bool {
    &&& is_table_size(k)
    &&& k <= bound
    &&& forall|i: int| 0 <= i < SIZES && #[trigger] SIZE_K[i] <= bound ==> SIZE_K[i] <= k
}

/// The largest supported block size that is at most `bound`.
pub open spec fn largest_size_within(bound: int) -> int {
    choose|k: int| is_largest_size_within(k, bound)
}

/// The number of symbols that the working memory holds when every symbol
/// is cut into `n` sub-symbols.
pub open spec fn capacity_bound(t: int, n: int) -> int {
    WORKING_MEMORY as int / (ALIGNMENT * symbols_needed(t, ALIGNMENT * n))
}

/// `KL(n)`: the largest supported block size that the working memory
/// holds with `n` sub-blocks.
pub open spec fn block_capacity(t: int, n: int) -> int {
    largest_size_within(capacity_bound(t, n))
}

/// `N_max`: the largest number of sub-blocks that keeps the sub-symbols
/// from becoming too small; at least one.
pub open spec fn max_sub_blocks(t: int) -> int {
    if t / (MIN_SUB_SYMBOL as int) >= 1 {
        t / (MIN_SUB_SYMBOL as int)
    } else {
        1
    }
}

/// `Z`: the number of source blocks of an object.
pub open spec fn source_blocks(f: int, t: int) -> int {
    symbols_needed(symbols_needed(f, t), block_capacity(t, max_sub_blocks(t)))
}

/// The first number of sub-blocks from `n` on with which a block of
/// `per_block` symbols fits into the working memory, or `n_max`.
pub open spec fn first_fit(per_block: int, t: int, n: int, n_max: int) -> int
    decreases n_max - n,
{
    if n >= n_max {
        n_max
    } else if per_block <= block_capacity(t, n) {
        n
    } else {
        first_fit(per_block, t, n + 1, n_max)
    }
}

/// `N`: the number of sub-blocks of each source block.
pub open spec fn sub_blocks(f: int, t: int) -> int {
    first_fit(
        symbols_needed(symbols_needed(f, t), source_blocks(f, t)),
        t,
        1,
        max_sub_blocks(t),
    )
}

/// The transfer length and the symbol size are ones that an object can have.
pub open spec fn acceptable(f: int, t: int) -> bool {
    &&& 0 < f
    &&& 0 < t
    &&& t % (ALIGNMENT as int) == 0
    &&& source_blocks(f, t) <= MAX_BLOCKS
}

/// The transmission parameters of an object.
#[derive(Clone, Copy, Debug, PartialEq, Eq, Structural)]
pub struct ObjectTransmissionInformation {
    /// `F`: the length of the object in octets.
    pub transfer_length: u64,
    /// `T`: the size of a symbol in octets.
    pub symbol_size: u16,
    /// `Kt`: the number of source symbols of the object.
    pub total_symbols: u64,
    /// `Z`: the number of source blocks.
    pub source_blocks: u32,
    /// `N`: the number of sub-blocks of each source block.
    pub sub_blocks: u16,
    /// `Al`: the alignment of the symbols.
    pub alignment: u8,
}

/// The parameters that belong to a transfer length and a symbol size.
pub open spec fn derived(f: int, t: int) -> ObjectTransmissionInformation {
    ObjectTransmissionInformation {
        transfer_length: f as u64,
        symbol_size: t as u16,
        total_symbols: symbols_needed(f, t) as u64,
        source_blocks: source_blocks(f, t) as u32,
        sub_blocks: sub_blocks(f, t) as u16,
        alignment: ALIGNMENT as u8,
    }
}

/// At most one size is the largest within a bound.
pub proof fn lemma_largest_unique(k: int, bound: int)
    requires
        is_largest_size_within(k, bound),
    ensures
        largest_size_within(bound) == k,
{
    let c = largest_size_within(bound);
    assert(is_largest_size_within(c, bound));
    let i = choose|i: int| 0 <= i < SIZES && #[trigger] SIZE_K[i] == k;
    let j = choose|j: int| 0 <= j < SIZES && #[trigger] SIZE_K[j] == c;
    assert(SIZE_K[i] <= c);
    assert(SIZE_K[j] <= k);
}

/// The largest supported block size that is at most `bound`.
pub fn largest_size(bound: u64) -> (k: u32)
    requires
        10 <= bound,
    ensures
        k == largest_size_within(bound as int),
        10 <= k <= MAX_K,
        k <= bound,
{
    proof {
        lemma_rows_in_shape(0);
        assert(SIZE_K[0] == 10);
    }
    let mut i: usize = 0;
    while i + 1 < SIZES && SIZE_K[i + 1] as u64 <= bound
        invariant
            i < SIZES,
            SIZE_K[i as int] <= bound,
        decreases SIZES - i,
    {
        i += 1;
    }
    proof {
        lemma_rows_in_shape(i as int);
        assert forall|j: int| 0 <= j < SIZES && #[trigger] SIZE_K[j] <= bound implies SIZE_K[j]
            <= SIZE_K[i as int] by {
            if j > i {
                if j > i + 1 {
                    lemma_sizes_increase(i + 1, j);
                }
            } else if j < i {
                lemma_sizes_increase(j, i as int);
            }
        }
        assert(is_table_size(SIZE_K[i as int] as int));
        lemma_largest_unique(SIZE_K[i as int] as int, bound as int);
    }
    SIZE_K[i]
}

/// `KL(n)` for the symbol size `t`.
pub fn capacity(t: u16, n: u16) -> (k: u32)
    requires
        0 < t,
        1 <= n <= 1023,
    ensures
        k == block_capacity(t as int, n as int),
        10 <= k <= MAX_K,
{
    let pieces: u64 = symbols_for(t as u64, ALIGNMENT * n);
    assert(1 <= pieces <= t) by (nonlinear_arith)
        requires
            pieces * (ALIGNMENT * n) >= t,
            (pieces - 1) * (ALIGNMENT * n) < t,
            ALIGNMENT * n >= 1,
            t > 0,
    ;
    let bound: u64 = WORKING_MEMORY / (ALIGNMENT as u64 * pieces);
    assert(bound >= 10) by {
        assert(ALIGNMENT as u64 * pieces <= 524280);
        assert(bound >= WORKING_MEMORY as int / 524280) by (nonlinear_arith)
            requires
                bound == WORKING_MEMORY as int / (ALIGNMENT as int * pieces as int),
                0 < ALIGNMENT as int * pieces as int <= 524280,
                WORKING_MEMORY == 10485760,
        ;
    }
    largest_size(bound)
}

impl ObjectTransmissionInformation {
    /// The parameters of an object of `transfer_length` octets with symbols of
    /// `symbol_size` octets.
    ///
    /// Refused are a transfer length of zero, a symbol size that is zero or
    /// no multiple of the alignment, and an object that would take more than
    /// 256 source blocks.
    pub fn with_defaults(transfer_length: u64, symbol_size: u16) -> (res: Result<
        ObjectTransmissionInformation,
        Error,
    >)
        ensures
            acceptable(transfer_length as int, symbol_size as int) ==> res == Ok::<
                ObjectTransmissionInformation,
                Error,
            >(derived(transfer_length as int, symbol_size as int)),
            !acceptable(transfer_length as int, symbol_size as int) ==> res == Err::<
                ObjectTransmissionInformation,
                Error,
            >(Error::Config),
    {
        if transfer_length == 0 || symbol_size == 0 || symbol_size % ALIGNMENT != 0 {
            return Err(Error::Config);
        }
        let kt: u64 = symbols_for(transfer_length, symbol_size);
        let n_max: u16 = if symbol_size / MIN_SUB_SYMBOL >= 1 {
            symbol_size / MIN_SUB_SYMBOL
        } else {
            1
        };
        let largest: u32 = capacity(symbol_size, n_max);
        let z: u64 = symbols_for(kt, largest as u16);
        if z > MAX_BLOCKS {
            return Err(Error::Config);
        }
        assert(z >= 1) by (nonlinear_arith)
            requires
                z * largest >= kt,
                kt * symbol_size >= transfer_length,
                transfer_length > 0,
                z >= 0,
        ;
        let per_block: u64 = symbols_for(kt, z as u16);
        let mut n: u16 = 1;
        while n < n_max && per_block > capacity(symbol_size, n) as u64
            invariant
                1 <= n <= n_max,
                n_max <= 1023,
                0 < symbol_size,
                first_fit(per_block as int, symbol_size as int, n as int, n_max as int) == first_fit(
                    per_block as int,
                    symbol_size as int,
                    1,
                    n_max as int,
                ),
            decreases n_max - n,
        {
            n += 1;
        }
        Ok(
            ObjectTransmissionInformation {
                transfer_length,
                symbol_size,
                total_symbols: kt,
                source_blocks: z as u32,
                sub_blocks: n,
                alignment: ALIGNMENT as u8,
            },
        )
    }
}

/// How a number of symbols is shared out between blocks whose sizes differ
/// by at most one: `long_count` blocks of `long_size`, then `short_count`
/// blocks of `short_size`.
#[derive(Clone, Copy, Debug, PartialEq, Eq, Structural)]
pub struct Partition {
    /// The size of the larger blocks: the quotient, rounded up.
    pub long_size: u64,
    /// The size of the smaller blocks: the quotient, rounded down.
    pub short_size: u64,
    /// The number of larger blocks.
    pub long_count: u64,
    /// The number of smaller blocks.
    pub short_count: u64,
}

/// The partition of `i` symbols into `j` blocks.
pub open spec fn partition_spec(i: int, j: int) -> Partition {
    Partition {
        long_size: symbols_needed(i, j) as u64,
        short_size: (i / j) as u64,
        long_count: (i % j) as u64,
        short_count: (j - i % j) as u64,
    }
}

/// The blocks of a partition hold all the symbols, and no two of them differ
/// by more than one symbol.
pub proof fn lemma_partition(i: int, j: int)
    requires
        0 <= i <= u64::MAX,
        0 < j <= u64::MAX,
    ensures
        partition_spec(i, j).long_count * partition_spec(i, j).long_size + partition_spec(
            i,
            j,
        ).short_count * partition_spec(i, j).short_size == i,
        partition_spec(i, j).long_count + partition_spec(i, j).short_count == j,
        partition_spec(i, j).short_size <= partition_spec(i, j).long_size <= partition_spec(
            i,
            j,
        ).short_size + 1,
        partition_spec(i, j).long_count > 0 ==> partition_spec(i, j).long_size == partition_spec(
            i,
            j,
        ).short_size + 1,
{
    let q = i / j;
    let r = i % j;
    lemma_ceil(i, j);
    vstd::arithmetic::div_mod::lemma_fundamental_div_mod(i, j);
    assert(0 <= q <= i && 0 <= r < j) by (nonlinear_arith)
        requires
            i == j * q + r,
            r == i % j,
            q == i / j,
            0 <= i,
            0 < j,
    ;
    let p = partition_spec(i, j);
    assert(p.short_size == q);
    assert(p.long_count == r);
    assert(p.short_count == j - r);
    if r == 0 {
        assert(p.long_size == q);
        assert(r * q + (j - r) * q == i) by (nonlinear_arith)
            requires
                i == j * q + r,
                r == 0,
        ;
    } else {
        assert(p.long_size == q + 1);
        assert(r * (q + 1) + (j - r) * q == i) by (nonlinear_arith)
            requires
                i == j * q + r,
        ;
    }
}

/// The partition of `i` symbols into `j` blocks.
pub fn partition(i: u64, j: u16) -> (p: Partition)
    requires
        0 < j,
    ensures
        p == partition_spec(i as int, j as int),
{
    proof {
        lemma_partition(i as int, j as int);
    }
    let long_count: u64 = i % (j as u64);
    Partition {
        long_size: symbols_for(i, j),
        short_size: i / (j as u64),
        long_count,
        short_count: j as u64 - long_count,
    }
}

impl ObjectTransmissionInformation {
    /// The parameters are those of an acceptable transfer length and symbol size.
    pub open spec fn wf(self) -> bool {
        &&& acceptable(self.transfer_length as int, self.symbol_size as int)
        &&& self == derived(self.transfer_length as int, self.symbol_size as int)
    }

    /// How the symbols of the object are shared out between its blocks.
    pub open spec fn parts(self) -> Partition {
        partition_spec(self.total_symbols as int, self.source_blocks as int)
    }

    /// The number of source symbols of block `b`.
    pub open spec fn block_symbols(self, b: int) -> int {
        if b < self.parts().long_count {
            self.parts().long_size as int
        } else {
            self.parts().short_size as int
        }
    }

    /// The number of source symbols in the blocks before block `b`.
    pub open spec fn first_symbol(self, b: int) -> int
        decreases b,
    {
        if b <= 0 {
            0
        } else {
            self.first_symbol(b - 1) + self.block_symbols(b - 1)
        }
    }

    /// Where block `b` starts in the object.
    pub open spec fn block_start(self, b: int) -> int {
        let at = self.first_symbol(b) * self.symbol_size;
        if at < self.transfer_length {
            at
        } else {
            self.transfer_length as int
        }
    }

    /// The length of block `b` in octets.
    pub open spec fn block_length(self, b: int) -> int {
        self.block_start(b + 1) - self.block_start(b)
    }

    /// Where the blocks start in the object: one entry for each block, and
    /// the length of the object at the end.
    pub fn block_bounds(&self) -> (bounds: Vec<u64>)
        requires
            self.wf(),
        ensures
            bounds@.len() == self.source_blocks + 1,
            forall|b: int| 0 <= b <= self.source_blocks ==> bounds@[b] == self.block_start(b),
    {
        proof {
            self.lemma_layout();
        }
        let parts = partition(self.total_symbols, self.source_blocks as u16);
        let mut bounds: Vec<u64> = Vec::new();
        bounds.push(0);
        let mut first: u64 = 0;
        let mut b: u32 = 0;
        while b < self.source_blocks
            invariant
                b <= self.source_blocks,
                1 <= self.source_blocks <= MAX_BLOCKS,
                parts == self.parts(),
                parts.long_size <= MAX_K,
                parts.short_size <= parts.long_size,
                first == self.first_symbol(b as int),
                first <= 256 * 2701,
                bounds@.len() == b + 1,
                forall|q: int| 0 <= q <= b ==> bounds@[q] == self.block_start(q),
            decreases self.source_blocks - b,
        {
            let symbols: u64 = if (b as u64) < parts.long_count {
                parts.long_size
            } else {
                parts.short_size
            };
            proof {
                self.lemma_first_symbol(b + 1);
                assert((b + 1) * parts.long_size <= 256 * 2701) by (nonlinear_arith)
                    requires
                        b + 1 <= 256,
                        parts.long_size <= 2701,
                ;
            }
            first = first + symbols;
            b += 1;
            assert(first * self.symbol_size <= 256 * 2701 * 65535) by (nonlinear_arith)
                requires
                    first <= 256 * 2701,
                    self.symbol_size <= 65535,
            ;
            let at: u64 = first * (self.symbol_size as u64);
            bounds.push(
                if at < self.transfer_length {
                    at
                } else {
                    self.transfer_length
                },
            );
        }
        bounds
    }

    /// The number of symbols before block `b`, in closed form.
    pub proof fn lemma_first_symbol(self, b: int)
        requires
            1 <= self.source_blocks,
            0 <= b <= self.source_blocks,
        ensures
            b <= self.parts().long_count ==> self.first_symbol(b) == b * self.parts().long_size,
            b > self.parts().long_count ==> self.first_symbol(b) == self.parts().long_count
                * self.parts().long_size + (b - self.parts().long_count) * self.parts().short_size,
            0 <= self.first_symbol(b) <= b * self.parts().long_size,
        decreases b,
    {
        let il = self.parts().long_size as int;
        let is = self.parts().short_size as int;
        let jl = self.parts().long_count as int;
        lemma_partition(self.total_symbols as int, self.source_blocks as int);
        if b > 0 {
            self.lemma_first_symbol(b - 1);
            if b <= jl {
                assert((b - 1) * il + il == b * il) by (nonlinear_arith);
            } else if b - 1 <= jl {
                assert((b - 1) * il + is == jl * il + (b - jl) * is) by (nonlinear_arith)
                    requires
                        b - 1 == jl,
                ;
                assert(jl * il + (b - jl) * is <= b * il) by (nonlinear_arith)
                    requires
                        b - 1 == jl,
                        is <= il,
                ;
            } else {
                assert(jl * il + (b - 1 - jl) * is + is == jl * il + (b - jl) * is)
                    by (nonlinear_arith);
                assert((b - 1) * il + is <= b * il) by (nonlinear_arith)
                    requires
                        is <= il,
                ;
            }
        } else {
            assert(0 * il == 0);
        }
    }

    /// The shape of the layout: between 1 and 256 blocks, none larger than
    /// the largest supported block, which together cover the object.
    pub proof fn lemma_layout(self)
        requires
            self.wf(),
        ensures
            1 <= self.source_blocks <= MAX_BLOCKS,
            0 < self.symbol_size,
            0 < self.transfer_length,
            self.total_symbols == symbols_needed(
                self.transfer_length as int,
                self.symbol_size as int,
            ),
            1 <= self.parts().long_size <= MAX_K,
            self.block_start(0) == 0,
            self.block_start(self.source_blocks as int) == self.transfer_length,
            self.first_symbol(self.source_blocks as int) == self.total_symbols,
            self.source_blocks <= self.total_symbols <= MAX_BLOCKS * MAX_K,
    {
        let f = self.transfer_length as int;
        let t = self.symbol_size as int;
        let kt = symbols_needed(f, t);
        let kl = block_capacity(t, max_sub_blocks(t));
        let z = symbols_needed(kt, kl);
        lemma_ceil(f, t);
        lemma_capacity_in_range(t, max_sub_blocks(t));
        lemma_ceil(kt, kl);
        assert(kt >= 1 && z >= 1) by (nonlinear_arith)
            requires
                kt * t >= f,
                f > 0,
                t > 0,
                z * kl >= kt,
                kl > 0,
        ;
        lemma_ceil(kt, z);
        let il = symbols_needed(kt, z);
        assert(1 <= il <= kl) by (nonlinear_arith)
            requires
                (il - 1) * z < kt,
                il * z >= kt,
                z * kl >= kt,
                kt >= 1,
                z >= 1,
        ;
        assert(kt <= 256 * 2701) by (nonlinear_arith)
            requires
                z * kl >= kt,
                z <= 256,
                kl <= 2701,
                z >= 1,
                kl >= 1,
        ;
        lemma_partition(kt, z);
        self.lemma_first_symbol(z);
        let jl = self.parts().long_count as int;
        assert(self.first_symbol(z) == kt) by {
            if z <= jl {
                assert(jl == z);
            }
        }
        assert(self.first_symbol(0) * t == 0);
    }

    /// No block of the object is longer than its symbols, and none fills
    /// more symbols than the largest supported block holds.
    pub proof fn lemma_block(self, b: int)
        requires
            self.wf(),
            0 <= b < self.source_blocks,
        ensures
            0 <= self.block_start(b) <= self.block_start(b + 1) <= self.transfer_length,
            self.block_length(b) <= self.block_symbols(b) * self.symbol_size,
            symbols_needed(self.block_length(b), self.symbol_size as int) <= self.block_symbols(b),
            1 <= self.block_symbols(b) <= self.parts().long_size,
            symbols_needed(self.block_length(b), self.symbol_size as int) <= MAX_K,
    {
        self.lemma_layout();
        let t = self.symbol_size as int;
        let z = self.source_blocks as int;
        lemma_partition(self.total_symbols as int, z);
        self.lemma_first_symbol(b);
        self.lemma_first_symbol(b + 1);
        let s = self.block_symbols(b);
        let a = self.first_symbol(b);
        assert(self.first_symbol(b + 1) == a + s);
        assert(s >= 1) by {
            let is = self.parts().short_size as int;
            let kt = self.total_symbols as int;
            assert(is >= 1) by (nonlinear_arith)
                requires
                    is == kt / z,
                    kt >= z,
                    z >= 1,
            {
                vstd::arithmetic::div_mod::lemma_fundamental_div_mod(kt, z);
            }
        }
        assert(a * t <= (a + s) * t && (a + s) * t == a * t + s * t) by (nonlinear_arith)
            requires
                a >= 0,
                s >= 0,
                t > 0,
        ;
        let len = self.block_length(b);
        lemma_ceil(len, t);
        let need = symbols_needed(len, t);
        assert(len <= s * t);
        if len > 0 {
            assert(need - 1 < s) by (nonlinear_arith)
                requires
                    (need - 1) * t < len,
                    len <= s * t,
                    t > 0,
            ;
        }
    }
}

/// The quotient rounded up is the least number of symbols that hold the octets.
pub proof fn lemma_ceil(len: int, t: int)
    requires
        0 <= len,
        0 < t,
    ensures
        symbols_needed(len, t) * t >= len,
        len > 0 ==> (symbols_needed(len, t) - 1) * t < len,
        len == 0 ==> symbols_needed(len, t) == 0,
        0 <= symbols_needed(len, t) <= len,
{
    let q = len / t;
    let r = len % t;
    vstd::arithmetic::div_mod::lemma_fundamental_div_mod(len, t);
    assert(0 <= q && 0 <= r < t && (q + 1) * t == q * t + t && (q - 1) * t == q * t - t && q <= len
        && (r > 0 ==> q + 1 <= len)) by (nonlinear_arith)
        requires
            len == t * q + r,
            q == len / t,
            r == len % t,
            0 <= len,
            0 < t,
    ;
    assert(q * t == t * q) by (nonlinear_arith);
}

/// The capacity of a block is a supported block size.
pub proof fn lemma_capacity_in_range(t: int, n: int)
    requires
        0 < t <= 65535,
        1 <= n,
    ensures
        10 <= block_capacity(t, n) <= MAX_K,
{
    let pieces = symbols_needed(t, ALIGNMENT * n);
    lemma_ceil(t, ALIGNMENT * n);
    let bound = capacity_bound(t, n);
    assert(1 <= pieces) by (nonlinear_arith)
        requires
            pieces * (ALIGNMENT * n) >= t,
            t > 0,
            n >= 1,
    ;
    assert(bound >= 10) by (nonlinear_arith)
        requires
            bound == WORKING_MEMORY as int / (ALIGNMENT as int * pieces),
            1 <= pieces <= 65535,
            WORKING_MEMORY == 10485760,
            ALIGNMENT == 8,
    ;
    lemma_rows_in_shape(0);
    assert(SIZE_K[0] == 10);
    lemma_largest_exists(bound, SIZES - 1);
    let k = largest_size_within(bound);
    let i = choose|i: int| 0 <= i < SIZES && #[trigger] SIZE_K[i] == k;
    lemma_rows_in_shape(i);
}

/// Among the first sizes of the table, one is the largest within a bound
/// that is at least the smallest size.
proof fn lemma_largest_exists(bound: int, top: int)
    requires
        0 <= top < SIZES,
        SIZE_K[0] <= bound,
    ensures
        exists|k: int| is_largest_size_within(k, bound),
    decreases top,
{
    if SIZE_K[top] <= bound && (top + 1 >= SIZES || SIZE_K[top + 1] > bound) {
        let k = SIZE_K[top] as int;
        assert forall|j: int| 0 <= j < SIZES && #[trigger] SIZE_K[j] <= bound implies SIZE_K[j]
            <= k by {
            if j > top {
                if j > top + 1 {
                    lemma_sizes_increase(top + 1, j);
                }
            } else if j < top {
                lemma_sizes_increase(j, top);
            }
        }
        assert(is_table_size(k));
        assert(is_largest_size_within(k, bound));
    } else if SIZE_K[top] > bound {
        lemma_largest_exists(bound, top - 1);
    } else {
        lemma_largest_from(bound, top + 1);
    }
}

/// From a size within the bound on, one size is the largest within the bound.
proof fn lemma_largest_from(bound: int, low: int)
    requires
        0 <= low < SIZES,
        SIZE_K[low] <= bound,
    ensures
        exists|k: int| is_largest_size_within(k, bound),
    decreases SIZES - low,
{
    if low + 1 >= SIZES || SIZE_K[low + 1] > bound {
        let k = SIZE_K[low] as int;
        assert forall|j: int| 0 <= j < SIZES && #[trigger] SIZE_K[j] <= bound implies SIZE_K[j]
            <= k by {
            if j > low {
                if j > low + 1 {
                    lemma_sizes_increase(low + 1, j);
                }
            } else if j < low {
                lemma_sizes_increase(j, low);
            }
        }
        assert(is_table_size(k));
        assert(is_largest_size_within(k, bound));
    } else {
        lemma_largest_from(bound, low + 1);
    }
}

} // verus!
