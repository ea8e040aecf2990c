//! The encoder of one source block.
//!
//! The encoder cuts the data of the block into source symbols, pads them to a
//! supported block size, and solves the system of the block once for its
//! intermediate symbols. The source packets carry the source symbols as they
//! are; every repair packet is the combination of the intermediate symbols
//! that the LT row of its identifier prescribes.
use crate::error::Error;
use crate::matrix::lt_row;
use crate::packet::{serialized, EncodingPacket, MAX_ESI};
use crate::params::{lemma_fits_unique, params_for, symbols_for, symbols_needed, BlockParams};
use crate::solver::{copy_of, rows_view};
use crate::system::{
    combine, determines, encoding_symbol, intermediate_symbols, known_view, symbols_have_size,
    KnownSymbol,
};
use crate::tables::MAX_K;
use vstd::prelude::*;

verus! {

/// Source symbol `i` of `data` cut into symbols of `t` octets: the octets from
/// `i * t` on, and zeros where the data has ended.
pub open spec fn symbol_of(data: Seq<u8>, t: int, i: int) -> Seq<u8> {
    Seq::new(
        t as nat,
        |j: int|
            if i * t + j < data.len() {
                data[i * t + j]
            } else {
                0u8
            },
    )
}

/// The `k` source symbols of `data`, each with its identifier.
pub open spec fn source_symbols(data: Seq<u8>, t: int, k: int) -> Seq<(u32, Seq<u8>)> {
    Seq::new(k as nat, |i: int| (i as u32, symbol_of(data, t, i)))
}

/// The packets that an encoder gives out for its block with `repair` repair
/// packets: the `K'` source packets, then the repair packets, in the order of
/// their identifiers.
pub open spec fn block_packets(e: SourceBlockEncoder, repair: int) -> Seq<Seq<u8>> {
    Seq::new(
        (e.params().k + repair) as nat,
        |i: int|
            serialized(
                e.block_id(),
                i as u32,
                if i < e.params().k {
                    e.source()[i].1
                } else {
                    encoding_symbol(e.params(), e.symbol_size(), e.intermediate(), i as u32)
                },
            ),
    )
}

/// The encoder of one source block.
pub struct SourceBlockEncoder {
    source_block_id: u8,
    symbol_size: u16,
    params: BlockParams,
    source: Vec<KnownSymbol>,
    intermediate: Vec<Vec<u8>>,
}

impl SourceBlockEncoder {
    /// The number of the block.
    pub closed spec fn block_id(&self) -> u8 {
        self.source_block_id
    }

    /// The size of a symbol in octets.
    pub closed spec fn symbol_size(&self) -> int {
        self.symbol_size as int
    }

    /// The parameters of the block.
    pub closed spec fn params(&self) -> BlockParams {
        self.params
    }

    /// The source symbols, padding included, each with its identifier.
    pub closed spec fn source(&self) -> Seq<(u32, Seq<u8>)> {
        known_view(self.source@)
    }

    /// The intermediate symbols.
    pub closed spec fn intermediate(&self) -> Seq<Seq<u8>> {
        rows_view(self.intermediate@)
    }

    /// The encoder holds `K'` source symbols, numbered in order, and the
    /// intermediate symbols that they determine.
    pub open spec fn wf(&self) -> bool {
        &&& self.params().wf()
        &&& 0 < self.symbol_size() <= 65535
        &&& self.source().len() == self.params().k
        &&& forall|i: int| 0 <= i < self.source().len() ==> (#[trigger] self.source()[i]).0 == i
        &&& symbols_have_size(self.source(), self.symbol_size())
        &&& determines(self.params(), self.symbol_size(), self.source(), self.intermediate())
    }

    /// An encoder for the block with number `source_block_id` and the octets `data`.
    ///
    /// A symbol size of zero is refused, and so is data that fills more
    /// symbols than the largest supported block holds. The block size is the
    /// smallest supported one that holds the data. The encoder is made
    /// exactly when the source symbols determine the intermediate symbols.
    pub fn new(source_block_id: u8, symbol_size: u16, data: &[u8]) -> (res: Result<
        SourceBlockEncoder,
        Error,
    >)
        ensures
            symbol_size == 0 ==> res == Err::<SourceBlockEncoder, Error>(Error::Config),
            symbol_size > 0 && symbols_needed(data@.len() as int, symbol_size as int) > MAX_K ==> res
                == Err::<SourceBlockEncoder, Error>(Error::Capacity),
            symbol_size > 0 && symbols_needed(data@.len() as int, symbol_size as int) <= MAX_K ==> {
                let p = params_for(symbols_needed(data@.len() as int, symbol_size as int));
                let src = source_symbols(data@, symbol_size as int, p.k as int);
                match res {
                    Ok(e) => {
                        &&& e.wf()
                        &&& e.block_id() == source_block_id
                        &&& e.symbol_size() == symbol_size
                        &&& e.params() == p
                        &&& e.source() == src
                    },
                    Err(err) => {
                        &&& err == Error::Singular
                        &&& forall|c: Seq<Seq<u8>>| !determines(p, symbol_size as int, src, c)
                    },
                }
            },
    {
        if symbol_size == 0 {
            return Err(Error::Config);
        }
        let needed: u64 = symbols_for(data.len() as u64, symbol_size);
        if needed > MAX_K as u64 {
            return Err(Error::Capacity);
        }
        let params = match BlockParams::for_symbols(needed as u32) {
            Some(p) => p,
            None => {
                return Err(Error::Capacity);
            },
        };
        proof {
            lemma_fits_unique(params, params, needed as int);
            params.lemma_shape();
        }
        let t: usize = symbol_size as usize;
        let n: usize = data.len();
        let mut source: Vec<KnownSymbol> = Vec::new();
        let mut i: u32 = 0;
        while i < params.k
            invariant
                i <= params.k,
                params.k <= MAX_K,
                t == symbol_size,
                0 < t <= 65535,
                n == data@.len(),
                source@.len() == i,
                forall|q: int|
                    0 <= q < i ==> (#[trigger] source@[q]).esi == q && source@[q].payload@
                        == symbol_of(data@, t as int, q),
            decreases params.k - i,
        {
            let mut payload: Vec<u8> = Vec::new();
            assert(i * t <= 2701 * 65535) by (nonlinear_arith)
                requires
                    i <= 2701,
                    t <= 65535,
            ;
            let base: usize = (i as usize) * t;
            let mut j: usize = 0;
            while j < t
                invariant
                    j <= t,
                    t <= 65535,
                    base == i * t,
                    base <= 2701 * 65535,
                    n == data@.len(),
                    payload@.len() == j,
                    forall|q: int|
                        0 <= q < j ==> payload@[q] == (if i * t + q < data@.len() {
                            data@[i * t + q]
                        } else {
                            0u8
                        }),
                decreases t - j,
            {
                let v: u8 = if base + j < n {
                    data[base + j]
                } else {
                    0
                };
                payload.push(v);
                j += 1;
            }
            assert(payload@ =~= symbol_of(data@, t as int, i as int));
            source.push(KnownSymbol { esi: i, payload });
            i += 1;
        }
        proof {
            let src = source_symbols(data@, symbol_size as int, params.k as int);
            assert(known_view(source@) =~= src);
        }
        match intermediate_symbols(&params, t, &source) {
            Some(c) => Ok(
                SourceBlockEncoder { source_block_id, symbol_size, params, source, intermediate: c },
            ),
            None => Err(Error::Singular),
        }
    }

    /// The parameters of the block.
    pub fn parameters(&self) -> (p: BlockParams)
        ensures
            p == self.params(),
    {
        self.params
    }

    /// The source packets: one for each of the `K'` source symbols, padding
    /// included, in the order of their identifiers.
    pub fn source_packets(&self) -> (packets: Vec<Vec<u8>>)
        requires
            self.wf(),
        ensures
            packets@.len() == self.params().k,
            forall|i: int|
                0 <= i < packets@.len() ==> (#[trigger] packets@[i])@ == serialized(
                    self.block_id(),
                    i as u32,
                    self.source()[i].1,
                ),
    {
        proof {
            self.params.lemma_shape();
        }
        let mut packets: Vec<Vec<u8>> = Vec::new();
        let n: usize = self.source.len();
        let mut i: usize = 0;
        while i < n
            invariant
                i <= n,
                n == self.source@.len(),
                n == self.params.k,
                n <= 2701,
                self.wf(),
                packets@.len() == i,
                forall|q: int|
                    0 <= q < i ==> (#[trigger] packets@[q])@ == serialized(
                        self.block_id(),
                        q as u32,
                        self.source()[q].1,
                    ),
            decreases n - i,
        {
            assert(self.source()[i as int].0 == i);
            assert(self.source()[i as int].1.len() == self.symbol_size());
            let packet = EncodingPacket {
                source_block_id: self.source_block_id,
                encoding_symbol_id: self.source[i].esi,
                payload: copy_of(&self.source[i].payload),
            };
            packets.push(packet.serialize());
            i += 1;
        }
        packets
    }

    /// The repair packets with the identifiers from `K' + start` on, `count` of them.
    ///
    /// The identifiers have to fit into the packet header.
    pub fn repair_packets(&self, start: u32, count: u32) -> (packets: Vec<Vec<u8>>)
        requires
            self.wf(),
            self.params().k + start + count <= MAX_ESI + 1,
        ensures
            packets@.len() == count,
            forall|i: int|
                0 <= i < count ==> (#[trigger] packets@[i])@ == serialized(
                    self.block_id(),
                    (self.params().k + start + i) as u32,
                    encoding_symbol(
                        self.params(),
                        self.symbol_size(),
                        self.intermediate(),
                        (self.params().k + start + i) as u32,
                    ),
                ),
    {
        proof {
            self.params.lemma_shape();
        }
        let first: u32 = self.params.k + start;
        let mut packets: Vec<Vec<u8>> = Vec::new();
        let mut i: u32 = 0;
        while i < count
            invariant
                i <= count,
                first == self.params.k + start,
                first + count <= MAX_ESI + 1,
                self.wf(),
                packets@.len() == i,
                forall|q: int|
                    0 <= q < i ==> (#[trigger] packets@[q])@ == serialized(
                        self.block_id(),
                        (first + q) as u32,
                        encoding_symbol(
                            self.params(),
                            self.symbol_size(),
                            self.intermediate(),
                            (first + q) as u32,
                        ),
                    ),
            decreases count - i,
        {
            let esi: u32 = first + i;
            let payload = self.symbol(esi);
            let packet = EncodingPacket {
                source_block_id: self.source_block_id,
                encoding_symbol_id: esi,
                payload,
            };
            packets.push(packet.serialize());
            i += 1;
        }
        packets
    }

    /// The encoding symbol with identifier `esi`.
    fn symbol(&self, esi: u32) -> (payload: Vec<u8>)
        requires
            self.wf(),
        ensures
            payload@ == encoding_symbol(self.params(), self.symbol_size(), self.intermediate(), esi),
            payload@.len() == self.symbol_size(),
    {
        let row = lt_row(&self.params, esi);
        combine(&row, &self.intermediate, self.symbol_size as usize)
    }
}

} // verus!
