//! The order of delivery does not matter to the decoder of an object either:
//! it gives out the object exactly when the genuine packets that it was fed
//! are sufficient for every block.
use crate::block_decoder::{decode_step, valid_setup};
use crate::decoder::{all_solved, block_setup, object_step, Decoder, ObjectState};
use crate::block_encoder::SourceBlockEncoder;
use crate::encoder::{all_packets, block_data, Encoder};
use crate::laws::{genuine_packet, law_block_bytes, law_systematic, lemma_packets_genuine};
use crate::object_laws::{
    encodes, genuine_for, law_object_round_trip, lemma_block_facts, lemma_joined_data,
    lemma_packet_places, object_after, object_answer, packets_before,
};
use crate::order_laws::{
    accepted, in_step, lemma_in_step, lemma_same_symbols, occur_in, sufficient, symbols_in,
    with_packet,
};
use crate::oti::ObjectTransmissionInformation;
use crate::params::{lemma_params_for, symbols_needed};
use vstd::prelude::*;

verus! {

/// The octets that the decoder of the object has given out in answer to the
/// first `n` packets.
pub open spec fn object_given_out(
    config: ObjectTransmissionInformation,
    packets: Seq<Seq<u8>>,
    n: int,
) -> Option<Seq<u8>>
    decreases n,
{
    if n <= 0 {
        None
    } else {
        match object_answer(config, Decoder::initial(config), packets, n - 1) {
            Ok(Some(bytes)) => Some(bytes),
            _ => object_given_out(config, packets, n - 1),
        }
    }
}

/// The first `n` packets carry a sufficient set of symbols to every block.
pub open spec fn every_block_sufficient(e: Encoder, packets: Seq<Seq<u8>>, n: int) -> bool {
    forall|b: int|
        0 <= b < e.config().source_blocks ==> sufficient(
            #[trigger] block_setup(e.config(), b),
            e.blocks()[b].intermediate(),
            symbols_in(block_setup(e.config(), b), packets, n),
        )
}

/// Every block decoder is in step with the symbols that the first `n`
/// packets carry to it, the octets of every solved block are the data of
/// the block, and the object is given out exactly when every block is solved.
pub open spec fn object_in_step(
    e: Encoder,
    data: Seq<u8>,
    state: ObjectState,
    packets: Seq<Seq<u8>>,
    n: int,
) -> bool {
    &&& state.blocks.len() == e.config().source_blocks
    &&& state.outputs.len() == e.config().source_blocks
    &&& forall|b: int|
        0 <= b < e.config().source_blocks ==> {
            &&& in_step(
                block_setup(e.config(), b),
                e.blocks()[b].intermediate(),
                #[trigger] state.blocks[b],
                symbols_in(block_setup(e.config(), b), packets, n),
            )
            &&& (state.blocks[b].solved ==> state.outputs[b] == block_data(data, e.config(), b))
        }
    &&& (state.done <==> all_solved(state.blocks))
}

/// What the decoder of block `b` needs to know of the encoder of block `b`.
proof fn lemma_block_ready(e: Encoder, data: Seq<u8>, b: int)
    requires
        encodes(e, data),
        0 <= b < e.config().source_blocks,
    ensures
        valid_setup(block_setup(e.config(), b)),
        block_setup(e.config(), b).params == e.blocks()[b].params(),
        block_setup(e.config(), b).symbol_size == e.blocks()[b].symbol_size(),
        crate::laws::satisfies_constraints(
            block_setup(e.config(), b).params,
            block_setup(e.config(), b).symbol_size as int,
            e.blocks()[b].intermediate(),
        ),
        crate::block_decoder::block_bytes(block_setup(e.config(), b), e.blocks()[b].intermediate())
            == block_data(data, e.config(), b),
        10 <= block_setup(e.config(), b).params.k,
{
    let config = e.config();
    config.lemma_layout();
    config.lemma_block(b);
    lemma_block_facts(e, data, b);
    lemma_params_for(symbols_needed(config.block_length(b), config.symbol_size as int));
    law_systematic(e.blocks()[b]);
    law_block_bytes(e.blocks()[b], block_data(data, config, b));
}

/// One genuine packet keeps the decoder of the object in step, and the
/// decoder answers it with the object exactly when it completes the last block.
proof fn lemma_object_step(
    e: Encoder,
    data: Seq<u8>,
    state: ObjectState,
    packets: Seq<Seq<u8>>,
    n: int,
)
    requires
        encodes(e, data),
        0 < n <= packets.len(),
        genuine_for(e, packets[n - 1]),
        object_in_step(e, data, state, packets, n - 1),
    ensures
        object_in_step(
            e,
            data,
            object_step(e.config(), state, packets[n - 1]).0,
            packets,
            n,
        ),
        match object_step(e.config(), state, packets[n - 1]).1 {
            Ok(Some(bytes)) => bytes == data && !state.done && object_step(
                e.config(),
                state,
                packets[n - 1],
            ).0.done,
            _ => object_step(e.config(), state, packets[n - 1]).0.done == state.done,
        },
{
    let config = e.config();
    let z = config.source_blocks as int;
    let x = packets[n - 1];
    let after = object_step(config, state, x).0;
    config.lemma_layout();
    let routed = !state.done && x.len() == 4 + config.symbol_size && x[0] < config.source_blocks;
    let b0 = x[0] as int;
    if routed {
        lemma_block_ready(e, data, b0);
        let setup = block_setup(config, b0);
        let s0 = symbols_in(setup, packets, n - 1);
        assert(symbols_in(setup, packets, n) == with_packet(setup, s0, x));
        lemma_in_step(setup, e.blocks()[b0].intermediate(), state.blocks[b0], s0, x);
        let (block, answer) = decode_step(setup, state.blocks[b0], x);
        let blocks = state.blocks.update(b0, block);
        assert(after.blocks == blocks);
        assert(all_solved(blocks) ==> forall|q: int|
            0 <= q < z && q != b0 ==> (#[trigger] state.blocks[q]).solved) by {
            if all_solved(blocks) {
                assert forall|q: int| 0 <= q < z && q != b0 implies (#[trigger] state.blocks[q]).solved by {
                    assert(blocks[q].solved);
                }
            }
        }
        match answer {
            Ok(Some(bytes)) => {
                let outputs = state.outputs.update(b0, bytes);
                assert(after.outputs == outputs);
                if all_solved(blocks) {
                    assert forall|q: int| 0 <= q < z implies #[trigger] outputs[q] == block_data(
                        data,
                        config,
                        q,
                    ) by {
                        assert(blocks[q].solved);
                        if q != b0 {
                            assert(state.blocks[q].solved);
                        }
                    }
                    lemma_joined_data(e, data, outputs, z);
                    assert(data.subrange(0, config.block_start(z)) =~= data);
                }
            },
            Ok(None) => {
                assert(block.solved == state.blocks[b0].solved);
                if all_solved(blocks) {
                    assert forall|q: int| 0 <= q < z implies (#[trigger] state.blocks[q]).solved by {
                        assert(blocks[q].solved);
                    }
                    assert(all_solved(state.blocks));
                }
                assert(!all_solved(blocks));
            },
            Err(_) => {
                assert(blocks =~= state.blocks);
            },
        }
    }
    assert forall|b: int| 0 <= b < z implies {
        &&& in_step(
            block_setup(config, b),
            e.blocks()[b].intermediate(),
            #[trigger] after.blocks[b],
            symbols_in(block_setup(config, b), packets, n),
        )
        &&& (after.blocks[b].solved ==> after.outputs[b] == block_data(data, config, b))
    } by {
        let setup = block_setup(config, b);
        let s0 = symbols_in(setup, packets, n - 1);
        let s = symbols_in(setup, packets, n);
        assert(s == with_packet(setup, s0, x));
        lemma_block_ready(e, data, b);
        if routed && b == b0 {
        } else {
            assert(after.blocks[b] == state.blocks[b]);
            assert(after.outputs[b] == state.outputs[b]);
            if accepted(setup, x) {
                assert(x[0] == b);
                assert(state.done);
                assert(state.blocks[b].solved);
                assert(genuine_packet(setup.params, setup.symbol_size as int, e.blocks()[b].intermediate(), x));
                lemma_in_step(setup, e.blocks()[b].intermediate(), state.blocks[b], s0, x);
            }
        }
    }
}

/// A decoder of the object that is fed genuine packets is in step with
/// them, and has given out the object exactly when it is done.
pub proof fn lemma_object_in_step(e: Encoder, data: Seq<u8>, packets: Seq<Seq<u8>>, n: int)
    requires
        encodes(e, data),
        0 <= n <= packets.len(),
        forall|i: int| 0 <= i < packets.len() ==> genuine_for(e, #[trigger] packets[i]),
    ensures
        object_in_step(
            e,
            data,
            object_after(e.config(), Decoder::initial(e.config()), packets, n),
            packets,
            n,
        ),
        object_given_out(e.config(), packets, n) == (if object_after(
            e.config(),
            Decoder::initial(e.config()),
            packets,
            n,
        ).done {
            Some(data)
        } else {
            None::<Seq<u8>>
        }),
    decreases n,
{
    let config = e.config();
    let start = Decoder::initial(config);
    config.lemma_layout();
    if n > 0 {
        lemma_object_in_step(e, data, packets, n - 1);
        lemma_object_step(e, data, object_after(config, start, packets, n - 1), packets, n);
    } else {
        assert forall|b: int| 0 <= b < config.source_blocks implies {
            &&& in_step(
                block_setup(config, b),
                e.blocks()[b].intermediate(),
                #[trigger] start.blocks[b],
                symbols_in(block_setup(config, b), packets, 0),
            )
            &&& (start.blocks[b].solved ==> start.outputs[b] == block_data(data, config, b))
        } by {
            lemma_block_ready(e, data, b);
            let s = symbols_in(block_setup(config, b), packets, 0);
            assert(start.blocks[b].known.to_set() =~= s);
            assert(s.len() == 0);
        }
        assert(!start.blocks[0].solved);
    }
}

/// Order independence of an object: two deliveries of genuine packets in
/// which the same packets occur, in whatever order and however often, make
/// the decoder give out the same: the object if the packets are sufficient
/// for every block, and nothing if they are not.
pub proof fn law_object_order_independent(
    e: Encoder,
    data: Seq<u8>,
    p: Seq<Seq<u8>>,
    q: Seq<Seq<u8>>,
)
    requires
        encodes(e, data),
        occur_in(p, q),
        occur_in(q, p),
        forall|i: int| 0 <= i < p.len() ==> genuine_for(e, #[trigger] p[i]),
    ensures
        object_given_out(e.config(), p, p.len() as int) == object_given_out(
            e.config(),
            q,
            q.len() as int,
        ),
        object_given_out(e.config(), p, p.len() as int) == (if every_block_sufficient(
            e,
            p,
            p.len() as int,
        ) {
            Some(data)
        } else {
            None::<Seq<u8>>
        }),
{
    let config = e.config();
    let start = Decoder::initial(config);
    assert forall|i: int| 0 <= i < q.len() implies genuine_for(e, #[trigger] q[i]) by {
        assert(p.contains(q[i]));
        let j = choose|j: int| 0 <= j < p.len() && p[j] == q[i];
        assert(genuine_for(e, p[j]));
    }
    lemma_object_in_step(e, data, p, p.len() as int);
    lemma_object_in_step(e, data, q, q.len() as int);
    let sp = object_after(config, start, p, p.len() as int);
    let sq = object_after(config, start, q, q.len() as int);
    assert forall|b: int| 0 <= b < config.source_blocks implies symbols_in(
        block_setup(config, b),
        p,
        p.len() as int,
    ) == symbols_in(block_setup(config, b), q, q.len() as int) by {
        lemma_same_symbols(block_setup(config, b), p, q);
    }
    assert(sp.done <==> every_block_sufficient(e, p, p.len() as int)) by {
        if sp.done {
            assert forall|b: int| 0 <= b < config.source_blocks implies sufficient(
                #[trigger] block_setup(config, b),
                e.blocks()[b].intermediate(),
                symbols_in(block_setup(config, b), p, p.len() as int),
            ) by {
                assert(sp.blocks[b].solved);
            }
        }
        if every_block_sufficient(e, p, p.len() as int) {
            assert forall|b: int| 0 <= b < sp.blocks.len() implies (#[trigger] sp.blocks[b]).solved by {
                assert(sufficient(
                    block_setup(config, b),
                    e.blocks()[b].intermediate(),
                    symbols_in(block_setup(config, b), p, p.len() as int),
                ));
            }
        }
    }
    assert(sq.done <==> sp.done) by {
        if sp.done {
            assert forall|b: int| 0 <= b < sq.blocks.len() implies (#[trigger] sq.blocks[b]).solved by {
                assert(sp.blocks[b].solved);
            }
        }
        if sq.done {
            assert forall|b: int| 0 <= b < sp.blocks.len() implies (#[trigger] sp.blocks[b]).solved by {
                assert(sq.blocks[b].solved);
            }
        }
    }
}

/// The place of source packet `i` of block `b` among all source packets.
pub open spec fn place(blocks: Seq<SourceBlockEncoder>, b: int, i: int) -> int {
    packets_before(blocks, b) + i
}

/// Every place among the source packets of the first `z` blocks is the
/// place of a source packet of one of the blocks.
proof fn lemma_locate(blocks: Seq<SourceBlockEncoder>, z: int, n: int)
    requires
        0 <= z <= blocks.len(),
        0 <= n < packets_before(blocks, z),
    ensures
        exists|b: int, i: int|
            0 <= b < z && 0 <= i < blocks[b].params().k && n == #[trigger] place(blocks, b, i),
    decreases z,
{
    if z > 0 {
        if n >= packets_before(blocks, z - 1) {
            assert(n == place(blocks, z - 1, n - packets_before(blocks, z - 1)));
        } else {
            lemma_locate(blocks, z - 1, n);
        }
    }
}

/// Every source packet of the encoder of an object is genuine.
proof fn lemma_source_packets_genuine(e: Encoder, data: Seq<u8>, n: int)
    requires
        encodes(e, data),
        0 <= n < all_packets(e.blocks(), 0, e.config().source_blocks as int).len(),
    ensures
        genuine_for(e, all_packets(e.blocks(), 0, e.config().source_blocks as int)[n]),
{
    let z = e.config().source_blocks as int;
    e.config().lemma_layout();
    lemma_block_facts(e, data, 0);
    lemma_packet_places(e.blocks(), z, 0, 0);
    lemma_locate(e.blocks(), z, n);
    let (b, i) = choose|b: int, i: int|
        0 <= b < z && 0 <= i < e.blocks()[b].params().k && n == #[trigger] place(e.blocks(), b, i);
    lemma_packet_places(e.blocks(), z, b, i);
    lemma_block_facts(e, data, b);
    e.blocks()[b].params().lemma_shape();
    lemma_packets_genuine(e.blocks()[b], 0, i);
}

/// The decoder that is fed all source packets block after block gives out the object.
proof fn lemma_in_order_gives_out(e: Encoder, data: Seq<u8>)
    requires
        encodes(e, data),
    ensures
        object_given_out(
            e.config(),
            all_packets(e.blocks(), 0, e.config().source_blocks as int),
            all_packets(e.blocks(), 0, e.config().source_blocks as int).len() as int,
        ) == Some(data),
{
    let config = e.config();
    let z = config.source_blocks as int;
    let p = all_packets(e.blocks(), 0, z);
    config.lemma_layout();
    lemma_block_facts(e, data, z - 1);
    let last = e.blocks()[z - 1].params().k - 1;
    lemma_packet_places(e.blocks(), z, z - 1, last);
    let n = packets_before(e.blocks(), z - 1) + last;
    assert(p.len() == n + 1);
    law_object_round_trip(e, data, z - 1, last);
    assert(object_answer(config, Decoder::initial(config), p, n) == Ok::<
        Option<Seq<u8>>,
        crate::error::Error,
    >(Some(data)));
}

/// Round trip of an object in any order: a decoder that is fed all source
/// packets of the encoder of an object, in whatever order and however
/// often, gives out the object.
pub proof fn law_object_round_trip_any_order(e: Encoder, data: Seq<u8>, q: Seq<Seq<u8>>)
    requires
        encodes(e, data),
        occur_in(all_packets(e.blocks(), 0, e.config().source_blocks as int), q),
        occur_in(q, all_packets(e.blocks(), 0, e.config().source_blocks as int)),
    ensures
        object_given_out(e.config(), q, q.len() as int) == Some(data),
{
    let p = all_packets(e.blocks(), 0, e.config().source_blocks as int);
    assert forall|n: int| 0 <= n < p.len() implies genuine_for(e, #[trigger] p[n]) by {
        lemma_source_packets_genuine(e, data, n);
    }
    lemma_in_order_gives_out(e, data);
    law_object_order_independent(e, data, p, q);
}

} // verus!
