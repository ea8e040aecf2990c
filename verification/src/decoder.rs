//! The decoder of an object: one block decoder for each source block.
use crate::block_decoder::{
    answer_view, decode_step, valid_setup, valid_state, BlockSetup, BlockState, SourceBlockDecoder,
};
use crate::encoder::block_params;
use crate::error::Error;
use crate::oti::{acceptable, derived, ObjectTransmissionInformation};
use crate::solver::rows_view;
use crate::system::append_octets;
use vstd::prelude::*;

verus! {

/// What the decoder of block `b` of an object is made for.
pub open spec fn block_setup(config: ObjectTransmissionInformation, b: int) -> BlockSetup {
    BlockSetup {
        source_block_id: b as u8,
        symbol_size: config.symbol_size,
        block_length: config.block_length(b) as u64,
        params: block_params(config, b),
    }
}

/// What the decoder of an object has collected.
pub struct ObjectState {
    /// What the decoder of each block has collected.
    pub blocks: Seq<BlockState>,
    /// The octets of each block that is solved.
    pub outputs: Seq<Seq<u8>>,
    /// Whether the object has been given out.
    pub done: bool,
}

/// Every block is solved.
pub open spec fn all_solved(blocks: Seq<BlockState>) -> bool {
    forall|b: int| 0 <= b < blocks.len() ==> (#[trigger] blocks[b]).solved
}

/// The octets of the first `n` blocks, one block after the other.
pub open spec fn joined_outputs(outputs: Seq<Seq<u8>>, n: int) -> Seq<u8>
    decreases n,
{
    if n <= 0 {
        Seq::<u8>::empty()
    } else {
        joined_outputs(outputs, n - 1) + outputs[n - 1]
    }
}

/// What one packet does to the decoder of an object, and what the decoder
/// answers.
///
/// A decoder that has given out its object ignores everything. A packet that
/// has not the length of a header and one symbol is refused, and so is one
/// whose block number names no block of the object. Any other packet goes
/// to the decoder of its block. When that solves the last unsolved block,
/// the decoder answers with the octets of all blocks in the order of their
/// numbers.
pub open spec fn object_step(
    config: ObjectTransmissionInformation,
    state: ObjectState,
    packet: Seq<u8>,
) -> (ObjectState, Result<Option<Seq<u8>>, Error>) {
    if state.done {
        (state, Ok(None))
    } else if packet.len() != 4 + config.symbol_size {
        (state, Err(Error::MalformedPacket))
    } else if packet[0] >= config.source_blocks {
        (state, Err(Error::BlockMismatch))
    } else {
        let b = packet[0] as int;
        let (block, answer) = decode_step(block_setup(config, b), state.blocks[b], packet);
        match answer {
            Ok(Some(bytes)) => {
                let blocks = state.blocks.update(b, block);
                let outputs = state.outputs.update(b, bytes);
                if all_solved(blocks) {
                    (
                        ObjectState { blocks, outputs, done: true },
                        Ok(Some(joined_outputs(outputs, blocks.len() as int))),
                    )
                } else {
                    (ObjectState { blocks, outputs, done: false }, Ok(None))
                }
            },
            Ok(None) => (
                ObjectState {
                    blocks: state.blocks.update(b, block),
                    outputs: state.outputs,
                    done: false,
                },
                Ok(None),
            ),
            Err(e) => (state, Err(e)),
        }
    }
}

/// The decoder of an object.
pub struct Decoder {
    config: ObjectTransmissionInformation,
    blocks: Vec<SourceBlockDecoder>,
    outputs: Vec<Vec<u8>>,
    done: bool,
}

impl Decoder {
    /// The transmission parameters of the object.
    pub closed spec fn config(&self) -> ObjectTransmissionInformation {
        self.config
    }

    /// What the decoder has collected.
    pub closed spec fn state(&self) -> ObjectState {
        ObjectState {
            blocks: Seq::new(self.blocks@.len(), |b: int| self.blocks@[b].state()),
            outputs: rows_view(self.outputs@),
            done: self.done,
        }
    }

    /// What the decoder of each block is made for.
    pub closed spec fn setups(&self) -> Seq<BlockSetup> {
        Seq::new(self.blocks@.len(), |b: int| self.blocks@[b].setup())
    }

    /// There is one valid block decoder for each block, made for that block.
    pub open spec fn wf(&self) -> bool {
        &&& self.config().wf()
        &&& self.state().blocks.len() == self.config().source_blocks
        &&& self.state().outputs.len() == self.config().source_blocks
        &&& self.setups().len() == self.config().source_blocks
        &&& forall|b: int|
            0 <= b < self.config().source_blocks ==> {
                &&& (#[trigger] self.setups()[b]) == block_setup(self.config(), b)
                &&& valid_setup(self.setups()[b])
                &&& valid_state(self.setups()[b], self.state().blocks[b])
            }
    }

    /// The state of a decoder that has received nothing.
    pub open spec fn initial(config: ObjectTransmissionInformation) -> ObjectState {
        ObjectState {
            blocks: Seq::new(
                config.source_blocks as nat,
                |b: int| BlockState { known: Seq::<(u32, Seq<u8>)>::empty(), solved: false },
            ),
            outputs: Seq::new(config.source_blocks as nat, |b: int| Seq::<u8>::empty()),
            done: false,
        }
    }

    /// The transmission parameters of the object.
    pub fn transmission_information(&self) -> (config: ObjectTransmissionInformation)
        ensures
            config == self.config(),
    {
        self.config
    }

    /// A decoder for an object of `transfer_length` octets with symbols of
    /// `symbol_size` octets, with nothing received yet.
    ///
    /// The transmission parameters are those that belong to the two numbers;
    /// where there are none, the numbers are refused.
    pub fn with_defaults(transfer_length: u64, symbol_size: u16) -> (res: Result<Decoder, Error>)
        ensures
            !acceptable(transfer_length as int, symbol_size as int) ==> res is Err && res->Err_0
                == Error::Config,
            acceptable(transfer_length as int, symbol_size as int) ==> res is Ok && res->Ok_0.wf()
                && res->Ok_0.config() == derived(transfer_length as int, symbol_size as int)
                && res->Ok_0.state() == Decoder::initial(
                derived(transfer_length as int, symbol_size as int),
            ),
    {
        let config = match ObjectTransmissionInformation::with_defaults(
            transfer_length,
            symbol_size,
        ) {
            Ok(c) => c,
            Err(e) => {
                return Err(e);
            },
        };
        proof {
            config.lemma_layout();
        }
        let bounds = config.block_bounds();
        let mut blocks: Vec<SourceBlockDecoder> = Vec::new();
        let mut outputs: Vec<Vec<u8>> = Vec::new();
        let mut b: u32 = 0;
        while b < config.source_blocks
            invariant
                b <= config.source_blocks,
                config.source_blocks <= 256,
                config.wf(),
                config.symbol_size == symbol_size,
                0 < symbol_size,
                bounds@.len() == config.source_blocks + 1,
                forall|q: int| 0 <= q <= config.source_blocks ==> bounds@[q] == config.block_start(q),
                blocks@.len() == b,
                outputs@.len() == b,
                forall|q: int| 0 <= q < b ==> (#[trigger] outputs@[q])@ == Seq::<u8>::empty(),
                forall|q: int|
                    0 <= q < b ==> {
                        &&& (#[trigger] blocks@[q]).wf()
                        &&& blocks@[q].setup() == block_setup(config, q)
                        &&& blocks@[q].state() == (BlockState {
                            known: Seq::<(u32, Seq<u8>)>::empty(),
                            solved: false,
                        })
                    },
            decreases config.source_blocks - b,
        {
            proof {
                config.lemma_block(b as int);
            }
            assert(bounds@[b as int] == config.block_start(b as int));
            assert(bounds@[b + 1] == config.block_start(b + 1));
            let length: u64 = bounds[b as usize + 1] - bounds[b as usize];
            match SourceBlockDecoder::new(b as u8, symbol_size, length) {
                Ok(d) => {
                    blocks.push(d);
                },
                Err(e) => {
                    return Err(e);
                },
            }
            outputs.push(Vec::new());
            b += 1;
        }
        let decoder = Decoder { config, blocks, outputs, done: false };
        proof {
            assert(decoder.state().blocks =~= Decoder::initial(config).blocks);
            assert(decoder.state().outputs =~= Decoder::initial(config).outputs);
            assert forall|q: int| 0 <= q < config.source_blocks implies {
                &&& (#[trigger] decoder.setups()[q]) == block_setup(config, q)
                &&& valid_setup(decoder.setups()[q])
                &&& valid_state(decoder.setups()[q], decoder.state().blocks[q])
            } by {
                assert(decoder.blocks@[q].wf());
            }
        }
        Ok(decoder)
    }

    /// Whether every block is solved.
    fn every_block_solved(&self) -> (all: bool)
        ensures
            all == all_solved(self.state().blocks),
    {
        let n: usize = self.blocks.len();
        let mut b: usize = 0;
        while b < n
            invariant
                b <= n,
                n == self.blocks@.len(),
                forall|q: int| 0 <= q < b ==> (#[trigger] self.state().blocks[q]).solved,
            decreases n - b,
        {
            if !self.blocks[b].is_solved() {
                assert(!self.state().blocks[b as int].solved);
                return false;
            }
            b += 1;
        }
        true
    }

    /// The octets of all blocks, one block after the other.
    fn join(&self) -> (out: Vec<u8>)
        ensures
            out@ == joined_outputs(self.state().outputs, self.state().outputs.len() as int),
    {
        let n: usize = self.outputs.len();
        let mut out: Vec<u8> = Vec::new();
        let mut b: usize = 0;
        while b < n
            invariant
                b <= n,
                n == self.outputs@.len(),
                out@ == joined_outputs(self.state().outputs, b as int),
            decreases n - b,
        {
            append_octets(&mut out, &self.outputs[b]);
            b += 1;
        }
        out
    }

    /// Takes one packet in its wire form, and answers with the object when
    /// the packet completes it.
    pub fn decode(&mut self, packet: &[u8]) -> (res: Result<Option<Vec<u8>>, Error>)
        requires
            old(self).wf(),
        ensures
            final(self).wf(),
            final(self).config() == old(self).config(),
            (final(self).state(), answer_view(res)) == object_step(
                old(self).config(),
                old(self).state(),
                packet@,
            ),
    {
        if self.done {
            return Ok(None);
        }
        if packet.len() != 4 + self.config.symbol_size as usize {
            return Err(Error::MalformedPacket);
        }
        let b: usize = packet[0] as usize;
        if b as u32 >= self.config.source_blocks {
            return Err(Error::BlockMismatch);
        }
        let ghost before = self.state();
        let ghost setups = self.setups();
        assert(self.setups()[b as int] == block_setup(self.config(), b as int));
        assert(self.blocks@[b as int].wf());
        let answer = self.blocks[b].decode(packet);
        proof {
            assert(self.setups() =~= setups);
            assert(self.state().blocks =~= before.blocks.update(b as int, self.blocks@[b as int].state()));
        }
        match answer {
            Ok(Some(bytes)) => {
                self.outputs.set(b, bytes);
                proof {
                    assert(self.state().outputs =~= before.outputs.update(b as int, bytes@));
                }
                if self.every_block_solved() {
                    let out = self.join();
                    self.done = true;
                    Ok(Some(out))
                } else {
                    Ok(None)
                }
            },
            Ok(None) => Ok(None),
            Err(e) => Err(e),
        }
    }
}

} // verus!
