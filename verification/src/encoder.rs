//! The encoder of an object: one block encoder for each source block.
use crate::block_encoder::{block_packets, source_symbols, SourceBlockEncoder};
use crate::error::Error;
use crate::oti::{acceptable, derived, ObjectTransmissionInformation};
use crate::packet::MAX_ESI;
use crate::params::{params_for, symbols_needed};
use crate::solver::rows_view;
use crate::system::determines;
use crate::tables::MAX_K;
use vstd::prelude::*;
use vstd::slice::slice_subrange;

verus! {

/// The octets of block `b` of the object `data`.
pub open spec fn block_data(data: Seq<u8>, config: ObjectTransmissionInformation, b: int) -> Seq<
    u8,
> {
    data.subrange(config.block_start(b), config.block_start(b + 1))
}

/// The parameters of block `b` of an object.
pub open spec fn block_params(config: ObjectTransmissionInformation, b: int) -> crate::params::BlockParams {
    params_for(symbols_needed(config.block_length(b), config.symbol_size as int))
}

/// The source symbols of block `b` of the object `data`.
pub open spec fn block_source(data: Seq<u8>, config: ObjectTransmissionInformation, b: int) -> Seq<
    (u32, Seq<u8>),
> {
    source_symbols(
        block_data(data, config, b),
        config.symbol_size as int,
        block_params(config, b).k as int,
    )
}

/// The packets of the first `n` blocks, block after block.
pub open spec fn all_packets(blocks: Seq<SourceBlockEncoder>, repair: int, n: int) -> Seq<Seq<u8>>
    decreases n,
{
    if n <= 0 {
        Seq::<Seq<u8>>::empty()
    } else {
        all_packets(blocks, repair, n - 1) + block_packets(blocks[n - 1], repair)
    }
}

/// The encoder of an object.
pub struct Encoder {
    config: ObjectTransmissionInformation,
    blocks: Vec<SourceBlockEncoder>,
}

impl Encoder {
    /// The transmission parameters of the object.
    pub closed spec fn config(&self) -> ObjectTransmissionInformation {
        self.config
    }

    /// The encoders of the blocks.
    pub closed spec fn blocks(&self) -> Seq<SourceBlockEncoder> {
        self.blocks@
    }

    /// There is one encoder for each block, with the number, the symbol size
    /// and the parameters of that block.
    pub open spec fn wf(&self) -> bool {
        &&& self.config().wf()
        &&& self.blocks().len() == self.config().source_blocks
        &&& forall|b: int|
            0 <= b < self.blocks().len() ==> {
                &&& (#[trigger] self.blocks()[b]).wf()
                &&& self.blocks()[b].block_id() == b
                &&& self.blocks()[b].symbol_size() == self.config().symbol_size
                &&& self.blocks()[b].params() == block_params(self.config(), b)
            }
    }

    /// The transmission parameters of the object.
    pub fn transmission_information(&self) -> (config: ObjectTransmissionInformation)
        ensures
            config == self.config(),
    {
        self.config
    }

    /// An encoder for the object `data` with symbols of `symbol_size` octets.
    ///
    /// The transmission parameters are those that belong to the length of
    /// the data and the symbol size; where there are none, the data is
    /// refused. The object is cut into its blocks, and the encoder is made
    /// exactly when the source symbols of every block determine its
    /// intermediate symbols.
    pub fn with_defaults(data: &[u8], symbol_size: u16) -> (res: Result<Encoder, Error>)
        ensures
            !acceptable(data@.len() as int, symbol_size as int) ==> res is Err && res->Err_0
                == Error::Config,
            acceptable(data@.len() as int, symbol_size as int) ==> {
                let config = derived(data@.len() as int, symbol_size as int);
                match res {
                    Ok(e) => {
                        &&& e.wf()
                        &&& e.config() == config
                        &&& forall|b: int|
                            0 <= b < config.source_blocks ==> (#[trigger] e.blocks()[b]).source()
                                == block_source(data@, config, b)
                    },
                    Err(err) => {
                        &&& err == Error::Singular
                        &&& exists|b: int|
                            0 <= b < config.source_blocks && forall|c: Seq<Seq<u8>>|
                                !determines(
                                    block_params(config, b),
                                    symbol_size as int,
                                    #[trigger] block_source(data@, config, b),
                                    c,
                                )
                    },
                }
            },
    {
        let config = match ObjectTransmissionInformation::with_defaults(
            data.len() as u64,
            symbol_size,
        ) {
            Ok(c) => c,
            Err(e) => {
                return Err(e);
            },
        };
        proof {
            config.lemma_layout();
        }
        let bounds = config.block_bounds();
        let n: usize = data.len();
        let mut blocks: Vec<SourceBlockEncoder> = Vec::new();
        let mut b: u32 = 0;
        while b < config.source_blocks
            invariant
                b <= config.source_blocks,
                n == data@.len(),
                config.source_blocks <= 256,
                config.wf(),
                config == derived(data@.len() as int, symbol_size as int),
                config.symbol_size == symbol_size,
                0 < symbol_size,
                config.transfer_length == data@.len(),
                bounds@.len() == config.source_blocks + 1,
                forall|q: int| 0 <= q <= config.source_blocks ==> bounds@[q] == config.block_start(q),
                blocks@.len() == b,
                forall|q: int|
                    0 <= q < b ==> {
                        &&& (#[trigger] blocks@[q]).wf()
                        &&& blocks@[q].block_id() == q
                        &&& blocks@[q].symbol_size() == symbol_size
                        &&& blocks@[q].params() == block_params(config, q)
                        &&& blocks@[q].source() == block_source(data@, config, q)
                    },
            decreases config.source_blocks - b,
        {
            proof {
                config.lemma_block(b as int);
            }
            assert(bounds@[b as int] == config.block_start(b as int));
            assert(bounds@[b + 1] == config.block_start(b + 1));
            let start: usize = bounds[b as usize] as usize;
            let end: usize = bounds[b as usize + 1] as usize;
            assert(start <= end <= data@.len());
            let piece = slice_subrange(data, start, end);
            assert(piece@ == block_data(data@, config, b as int));
            assert(piece@.len() == config.block_length(b as int));
            match SourceBlockEncoder::new(b as u8, symbol_size, piece) {
                Ok(e) => {
                    blocks.push(e);
                },
                Err(err) => {
                    proof {
                        let src = block_source(data@, config, b as int);
                        assert(forall|c: Seq<Seq<u8>>|
                            !determines(block_params(config, b as int), symbol_size as int, src, c));
                    }
                    return Err(err);
                },
            }
            b += 1;
        }
        Ok(Encoder { config, blocks })
    }

    /// The packets of the object: for each block in the order of the block
    /// numbers, its source packets and then `repair_packets_per_block` repair
    /// packets.
    ///
    /// The identifiers have to fit into the packet header.
    pub fn get_encoded_packets(&self, repair_packets_per_block: u32) -> (packets: Vec<Vec<u8>>)
        requires
            self.wf(),
            repair_packets_per_block <= MAX_ESI + 1 - MAX_K,
        ensures
            rows_view(packets@) == all_packets(
                self.blocks(),
                repair_packets_per_block as int,
                self.blocks().len() as int,
            ),
    {
        let mut packets: Vec<Vec<u8>> = Vec::new();
        let n: usize = self.blocks.len();
        let mut b: usize = 0;
        assert(rows_view(packets@) =~= all_packets(self.blocks(), repair_packets_per_block as int, 0));
        while b < n
            invariant
                b <= n,
                n == self.blocks@.len(),
                self.wf(),
                repair_packets_per_block <= MAX_ESI + 1 - MAX_K,
                rows_view(packets@) == all_packets(
                    self.blocks(),
                    repair_packets_per_block as int,
                    b as int,
                ),
            decreases n - b,
        {
            let block = &self.blocks[b];
            assert(self.blocks()[b as int].wf());
            proof {
                block.params().lemma_shape();
            }
            let ghost before = rows_view(packets@);
            let mut source = block.source_packets();
            let mut repair = block.repair_packets(0, repair_packets_per_block);
            let ghost sv = rows_view(source@);
            let ghost rv = rows_view(repair@);
            packets.append(&mut source);
            packets.append(&mut repair);
            proof {
                let want = block_packets(*block, repair_packets_per_block as int);
                assert(rows_view(packets@) =~= before + sv + rv);
                assert(sv + rv =~= want);
                assert(before + sv + rv =~= before + (sv + rv));
            }
            b += 1;
        }
        packets
    }
}

} // verus!
