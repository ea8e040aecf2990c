//! The decoder of one source block.
//!
//! The decoder collects the symbols of its block, one for each identifier,
//! and is solved as soon as at least `K'` of them determine the intermediate
//! symbols. It then gives out the octets of the block, once.
use crate::error::Error;
use crate::linear::{shaped, solves};
use crate::matrix::lt_row;
use crate::packet::{header_esi, EncodingPacket};
use crate::params::{lemma_fits_unique, params_for, symbols_for, symbols_needed, BlockParams};
use crate::solver::rows_view;
use crate::system::{
    append_octets, block_system, combine, determines, encoding_symbol, intermediate_symbols, known_view,
    symbols_have_size, KnownSymbol,
};
use crate::tables::MAX_K;
use vstd::prelude::*;

verus! {

/// What a block decoder is made for; it never changes.
pub struct BlockSetup {
    /// The number of the block.
    pub source_block_id: u8,
    /// The size of a symbol in octets.
    pub symbol_size: u16,
    /// The length of the block in octets.
    pub block_length: u64,
    /// The parameters of the block.
    pub params: BlockParams,
}

/// What a block decoder has collected.
pub struct BlockState {
    /// The symbols received so far, in the order of their arrival.
    pub known: Seq<(u32, Seq<u8>)>,
    /// Whether the block has been given out.
    pub solved: bool,
}

/// The setup is one that a decoder can have.
pub open spec fn valid_setup(setup: BlockSetup) -> bool {
    &&& 0 < setup.symbol_size
    &&& setup.params.fits(symbols_needed(setup.block_length as int, setup.symbol_size as int))
}

/// The symbols have the size of the setup, and no identifier occurs twice.
pub open spec fn valid_state(setup: BlockSetup, state: BlockState) -> bool {
    &&& symbols_have_size(state.known, setup.symbol_size as int)
    &&& forall|i: int, j: int|
        0 <= i < j < state.known.len() ==> (#[trigger] state.known[i]).0 != (
        #[trigger] state.known[j]).0
}

/// A symbol with the identifier `esi` is among the known ones.
pub open spec fn seen(known: Seq<(u32, Seq<u8>)>, esi: u32) -> bool {
    exists|i: int| 0 <= i < known.len() && (#[trigger] known[i]).0 == esi
}

/// The known symbols are at least `K'` and determine the intermediate symbols.
pub open spec fn decodable(setup: BlockSetup, known: Seq<(u32, Seq<u8>)>) -> bool {
    known.len() >= setup.params.k && exists|c: Seq<Seq<u8>>|
        determines(setup.params, setup.symbol_size as int, known, c)
}

/// The intermediate symbols that the known symbols determine.
pub open spec fn solution(setup: BlockSetup, known: Seq<(u32, Seq<u8>)>) -> Seq<Seq<u8>> {
    choose|c: Seq<Seq<u8>>| determines(setup.params, setup.symbol_size as int, known, c)
}

/// The first `k` encoding symbols that belong to the intermediate symbols
/// `c`, one after the other.
pub open spec fn joined(p: BlockParams, t: int, c: Seq<Seq<u8>>, k: int) -> Seq<u8>
    decreases k,
{
    if k <= 0 {
        Seq::<u8>::empty()
    } else {
        joined(p, t, c, k - 1) + encoding_symbol(p, t, c, (k - 1) as u32)
    }
}

/// The octets of the block that belongs to the intermediate symbols `c`: the
/// source symbols that the block fills, one after the other, cut at the
/// length of the block.
pub open spec fn block_bytes(setup: BlockSetup, c: Seq<Seq<u8>>) -> Seq<u8> {
    joined(
        setup.params,
        setup.symbol_size as int,
        c,
        symbols_needed(setup.block_length as int, setup.symbol_size as int),
    ).take(setup.block_length as int)
}

/// What one packet does to a block decoder, and what the decoder answers.
///
/// A solved decoder ignores everything. A packet that has not the length of a
/// header and one symbol is refused, and so is one of another block; neither
/// changes the decoder. A symbol whose identifier is known already is
/// ignored. Any other symbol is added; if the known symbols then are at
/// least `K'` and determine the intermediate symbols, the decoder is solved
/// and answers with the octets of the block.
pub open spec fn decode_step(setup: BlockSetup, state: BlockState, packet: Seq<u8>) -> (
    BlockState,
    Result<Option<Seq<u8>>, Error>,
) {
    if state.solved {
        (state, Ok(None))
    } else if packet.len() != 4 + setup.symbol_size {
        (state, Err(Error::MalformedPacket))
    } else if packet[0] != setup.source_block_id {
        (state, Err(Error::BlockMismatch))
    } else if seen(state.known, header_esi(packet)) {
        (state, Ok(None))
    } else {
        let known = state.known.push((header_esi(packet), packet.skip(4)));
        if decodable(setup, known) {
            (
                BlockState { known, solved: true },
                Ok(Some(block_bytes(setup, solution(setup, known)))),
            )
        } else {
            (BlockState { known, solved: false }, Ok(None))
        }
    }
}

/// The answer of a decoder with its octets as a sequence.
pub open spec fn answer_view(res: Result<Option<Vec<u8>>, Error>) -> Result<
    Option<Seq<u8>>,
    Error,
> {
    match res {
        Ok(Some(v)) => Ok(Some(v@)),
        Ok(None) => Ok(None),
        Err(e) => Err(e),
    }
}

/// The decoder of one source block.
pub struct SourceBlockDecoder {
    source_block_id: u8,
    symbol_size: u16,
    block_length: u64,
    params: BlockParams,
    known: Vec<KnownSymbol>,
    solved: bool,
}

impl SourceBlockDecoder {
    /// What the decoder was made for.
    pub closed spec fn setup(&self) -> BlockSetup {
        BlockSetup {
            source_block_id: self.source_block_id,
            symbol_size: self.symbol_size,
            block_length: self.block_length,
            params: self.params,
        }
    }

    /// What the decoder has collected.
    pub closed spec fn state(&self) -> BlockState {
        BlockState { known: known_view(self.known@), solved: self.solved }
    }

    /// The setup is valid and the state is valid for it.
    pub open spec fn wf(&self) -> bool {
        valid_setup(self.setup()) && valid_state(self.setup(), self.state())
    }

    /// A decoder for the block with number `source_block_id` and
    /// `block_length` octets, with nothing received yet.
    ///
    /// A symbol size of zero is refused, and so is a block that fills more
    /// symbols than the largest supported block holds.
    pub fn new(source_block_id: u8, symbol_size: u16, block_length: u64) -> (res: Result<
        SourceBlockDecoder,
        Error,
    >)
        ensures
            symbol_size == 0 ==> res == Err::<SourceBlockDecoder, Error>(Error::Config),
            symbol_size > 0 && symbols_needed(block_length as int, symbol_size as int) > MAX_K
                ==> res == Err::<SourceBlockDecoder, Error>(Error::Capacity),
            symbol_size > 0 && symbols_needed(block_length as int, symbol_size as int) <= MAX_K
                ==> res is Ok && res->Ok_0.wf() && res->Ok_0.setup() == (BlockSetup {
                source_block_id,
                symbol_size,
                block_length,
                params: params_for(symbols_needed(block_length as int, symbol_size as int)),
            }) && res->Ok_0.state() == (BlockState {
                known: Seq::<(u32, Seq<u8>)>::empty(),
                solved: false,
            }),
    {
        if symbol_size == 0 {
            return Err(Error::Config);
        }
        let needed: u64 = symbols_for(block_length, symbol_size);
        if needed > MAX_K as u64 {
            return Err(Error::Capacity);
        }
        let params = match BlockParams::for_symbols(needed as u32) {
            Some(p) => p,
            None => {
                return Err(Error::Capacity);
            },
        };
        proof {
            lemma_fits_unique(params, params, needed as int);
        }
        let known: Vec<KnownSymbol> = Vec::new();
        let decoder = SourceBlockDecoder {
            source_block_id,
            symbol_size,
            block_length,
            params,
            known,
            solved: false,
        };
        assert(decoder.state().known =~= Seq::<(u32, Seq<u8>)>::empty());
        Ok(decoder)
    }

    /// Whether the block has been given out.
    pub fn is_solved(&self) -> (solved: bool)
        ensures
            solved == self.state().solved,
    {
        self.solved
    }

    /// The number of symbols received, one for each identifier.
    pub fn received(&self) -> (n: usize)
        ensures
            n == self.state().known.len(),
    {
        self.known.len()
    }

    /// Whether a symbol with the identifier `esi` is among the known ones.
    fn has_seen(&self, esi: u32) -> (found: bool)
        ensures
            found == seen(self.state().known, esi),
    {
        let n: usize = self.known.len();
        let mut i: usize = 0;
        while i < n
            invariant
                i <= n,
                n == self.known@.len(),
                forall|q: int| 0 <= q < i ==> (#[trigger] known_view(self.known@)[q]).0 != esi,
            decreases n - i,
        {
            if self.known[i].esi == esi {
                assert(known_view(self.known@)[i as int].0 == esi);
                return true;
            }
            i += 1;
        }
        false
    }

    /// The octets of the block that belongs to the intermediate symbols `c`.
    fn assemble(&self, c: &Vec<Vec<u8>>) -> (out: Vec<u8>)
        requires
            self.wf(),
            shaped(rows_view(c@), self.setup().params.l(), self.setup().symbol_size as int),
        ensures
            out@ == block_bytes(self.setup(), rows_view(c@)),
    {
        proof {
            self.params.lemma_shape();
        }
        let t: usize = self.symbol_size as usize;
        let ghost cv = rows_view(c@);
        let needed: u64 = symbols_for(self.block_length, self.symbol_size);
        let mut out: Vec<u8> = Vec::new();
        let mut i: u32 = 0;
        while (i as u64) < needed
            invariant
                self.wf(),
                t == self.symbol_size,
                i <= needed <= 2701,
                cv == rows_view(c@),
                shaped(cv, self.params.l(), t as int),
                out@ == joined(self.params, t as int, cv, i as int),
                out@.len() == i * t,
            decreases needed - i,
        {
            let row = lt_row(&self.params, i);
            let sym = combine(&row, c, t);
            append_octets(&mut out, &sym);
            assert((i + 1) * t == i * t + t) by (nonlinear_arith);
            i += 1;
        }
        assert(out@.len() >= self.block_length);
        assert(self.block_length <= 2701 * 65535) by (nonlinear_arith)
            requires
                self.block_length <= needed * t,
                needed <= 2701,
                t <= 65535,
        ;
        out.truncate(self.block_length as usize);
        assert(out@ =~= block_bytes(self.setup(), cv));
        out
    }

    /// Takes one packet in its wire form, and answers with the octets of the
    /// block when the packet completes it.
    pub fn decode(&mut self, packet: &[u8]) -> (res: Result<Option<Vec<u8>>, Error>)
        requires
            old(self).wf(),
        ensures
            final(self).wf(),
            final(self).setup() == old(self).setup(),
            (final(self).state(), answer_view(res)) == decode_step(
                old(self).setup(),
                old(self).state(),
                packet@,
            ),
    {
        if self.solved {
            return Ok(None);
        }
        let t: usize = self.symbol_size as usize;
        if packet.len() != 4 + t {
            return Err(Error::MalformedPacket);
        }
        let parsed = match EncodingPacket::deserialize(packet) {
            Ok(p) => p,
            Err(e) => {
                return Err(e);
            },
        };
        if parsed.source_block_id != self.source_block_id {
            return Err(Error::BlockMismatch);
        }
        let esi: u32 = parsed.encoding_symbol_id;
        if self.has_seen(esi) {
            return Ok(None);
        }
        let ghost before = known_view(self.known@);
        self.known.push(KnownSymbol { esi, payload: parsed.payload });
        let ghost after = known_view(self.known@);
        proof {
            assert(after =~= before.push((esi, packet@.skip(4))));
            assert forall|i: int, j: int| 0 <= i < j < after.len() implies (#[trigger] after[i]).0 != (
            #[trigger] after[j]).0 by {
                if j == before.len() {
                    assert(before[i].0 != esi);
                } else {
                    assert(before[i].0 != before[j].0);
                }
            }
            assert forall|i: int| 0 <= i < after.len() implies (#[trigger] after[i]).1.len() == t by {
                if i < before.len() {
                    assert(before[i].1.len() == t);
                }
            }
            self.params.lemma_shape();
        }
        if self.known.len() < self.params.k as usize {
            return Ok(None);
        }
        match intermediate_symbols(&self.params, t, &self.known) {
            None => Ok(None),
            Some(c) => {
                proof {
                    let s = solution(self.setup(), after);
                    assert(determines(self.params, t as int, after, rows_view(c@)));
                    assert(determines(self.params, t as int, after, s));
                    assert(solves(block_system(self.params, t as int, after), s, self.params.l(), t as int));
                    assert(s == rows_view(c@));
                }
                let out = self.assemble(&c);
                self.solved = true;
                Ok(Some(out))
            },
        }
    }
}

} // verus!
