//! What holds of the decoder of an object that is fed the packets of the
//! encoder of that object.
use crate::block_decoder::{decode_step, valid_setup, valid_state, BlockState};
use crate::block_encoder::{block_packets, SourceBlockEncoder};
use crate::decoder::{
    all_solved, block_setup, joined_outputs, object_step, Decoder, ObjectState,
};
use crate::encoder::{all_packets, block_data, block_source, Encoder};
use crate::error::Error;
use crate::laws::{
    all_genuine, fresh, genuine_packet, law_block_bytes, law_block_length, law_genuine_answer,
    law_idempotent,
    law_systematic, lemma_packets_genuine, lemma_source_step, setup_for,
};
use crate::oti::ObjectTransmissionInformation;
use crate::params::{lemma_params_for, symbols_needed};
use vstd::prelude::*;

verus! {

/// The decoder of the object after the first `n` of the packets.
pub open spec fn object_after(
    config: ObjectTransmissionInformation,
    start: ObjectState,
    packets: Seq<Seq<u8>>,
    n: int,
) -> ObjectState
    decreases n,
{
    if n <= 0 {
        start
    } else {
        object_step(config, object_after(config, start, packets, n - 1), packets[n - 1]).0
    }
}

/// The answer of the decoder of the object to packet `n`, after the packets before it.
pub open spec fn object_answer(
    config: ObjectTransmissionInformation,
    start: ObjectState,
    packets: Seq<Seq<u8>>,
    n: int,
) -> Result<Option<Seq<u8>>, Error> {
    object_step(config, object_after(config, start, packets, n), packets[n]).1
}

/// The encoder is one for the object `data`.
pub open spec fn encodes(e: Encoder, data: Seq<u8>) -> bool {
    &&& e.wf()
    &&& e.config().transfer_length == data.len()
    &&& forall|b: int|
        0 <= b < e.config().source_blocks ==> (#[trigger] e.blocks()[b]).source() == block_source(
            data,
            e.config(),
            b,
        )
}

/// The number of source packets of the blocks before block `b`.
pub open spec fn packets_before(blocks: Seq<SourceBlockEncoder>, b: int) -> int
    decreases b,
{
    if b <= 0 {
        0
    } else {
        packets_before(blocks, b - 1) + blocks[b - 1].params().k
    }
}

/// The decoder that has taken the source packets of the blocks before block
/// `b` and the first `i` source packets of block `b`.
pub open spec fn progress(e: Encoder, data: Seq<u8>, b: int, i: int) -> ObjectState {
    ObjectState {
        blocks: Seq::new(
            e.config().source_blocks as nat,
            |q: int|
                if q < b {
                    BlockState { known: e.blocks()[q].source(), solved: true }
                } else if q == b {
                    BlockState { known: e.blocks()[q].source().take(i), solved: false }
                } else {
                    fresh()
                },
        ),
        outputs: Seq::new(
            e.config().source_blocks as nat,
            |q: int|
                if q < b {
                    block_data(data, e.config(), q)
                } else {
                    Seq::<u8>::empty()
                },
        ),
        done: false,
    }
}

/// Where the source packets of each block stand among all packets.
pub proof fn lemma_packet_places(blocks: Seq<SourceBlockEncoder>, n: int, b: int, i: int)
    requires
        0 <= b < n <= blocks.len(),
        0 <= i < blocks[b].params().k,
    ensures
        all_packets(blocks, 0, n).len() == packets_before(blocks, n),
        0 <= packets_before(blocks, b),
        packets_before(blocks, b) + i < packets_before(blocks, n),
        all_packets(blocks, 0, n)[packets_before(blocks, b) + i] == block_packets(blocks[b], 0)[i],
    decreases n,
{
    lemma_packets_before(blocks, n - 1);
    lemma_packets_before(blocks, b);
    if b < n - 1 {
        lemma_packet_places(blocks, n - 1, b, i);
    } else {
        lemma_all_packets_len(blocks, n - 1);
    }
    lemma_all_packets_len(blocks, n);
}

/// No number of packets is negative.
proof fn lemma_packets_before(blocks: Seq<SourceBlockEncoder>, b: int)
    ensures
        0 <= packets_before(blocks, b),
    decreases b,
{
    if b > 0 {
        lemma_packets_before(blocks, b - 1);
    }
}

/// The source packets of the first `n` blocks are as many as their block sizes together.
proof fn lemma_all_packets_len(blocks: Seq<SourceBlockEncoder>, n: int)
    ensures
        all_packets(blocks, 0, n).len() == packets_before(blocks, n),
    decreases n,
{
    if n > 0 {
        lemma_all_packets_len(blocks, n - 1);
    }
}

/// The data of the first `n` blocks, one block after the other, is the
/// object up to the start of block `n`.
pub proof fn lemma_joined_data(e: Encoder, data: Seq<u8>, outputs: Seq<Seq<u8>>, n: int)
    requires
        encodes(e, data),
        0 <= n <= e.config().source_blocks,
        forall|q: int| 0 <= q < n ==> #[trigger] outputs[q] == block_data(data, e.config(), q),
    ensures
        joined_outputs(outputs, n) == data.subrange(0, e.config().block_start(n)),
    decreases n,
{
    let config = e.config();
    config.lemma_layout();
    if n > 0 {
        lemma_joined_data(e, data, outputs, n - 1);
        config.lemma_block(n - 1);
        assert(outputs[n - 1] == block_data(data, config, n - 1));
        assert(joined_outputs(outputs, n) =~= data.subrange(0, config.block_start(n)));
    } else {
        assert(joined_outputs(outputs, n) =~= data.subrange(0, config.block_start(n)));
    }
}

/// What the encoder of block `b` and the decoder of block `b` have in common.
pub proof fn lemma_block_facts(e: Encoder, data: Seq<u8>, b: int)
    requires
        encodes(e, data),
        0 <= b < e.config().source_blocks,
    ensures
        e.blocks()[b].wf(),
        e.blocks()[b].source() == crate::block_encoder::source_symbols(
            block_data(data, e.config(), b),
            e.blocks()[b].symbol_size(),
            e.blocks()[b].params().k as int,
        ),
        symbols_needed(
            block_data(data, e.config(), b).len() as int,
            e.blocks()[b].symbol_size(),
        ) <= e.blocks()[b].params().k,
        setup_for(e.blocks()[b], block_data(data, e.config(), b).len() as int) == block_setup(
            e.config(),
            b,
        ),
        10 <= e.blocks()[b].params().k,
        block_data(data, e.config(), b).len() <= u64::MAX,
        e.blocks()[b].block_id() == b,
        e.blocks()[b].symbol_size() == e.config().symbol_size,
{
    let config = e.config();
    config.lemma_layout();
    config.lemma_block(b);
    let eb = e.blocks()[b];
    assert(eb.wf());
    assert(eb.source() == block_source(data, config, b));
    let len = block_data(data, config, b).len() as int;
    assert(len == config.block_length(b));
    lemma_params_for(symbols_needed(len, config.symbol_size as int));
    eb.params().lemma_shape();
}

/// After the source packets of the blocks before block `b` and the first `i`
/// source packets of block `b`, the decoder has solved the blocks before
/// block `b`, holds the first `i` source symbols of block `b`, and has
/// answered with nothing.
pub proof fn lemma_progress(e: Encoder, data: Seq<u8>, b: int, i: int)
    requires
        encodes(e, data),
        0 <= b < e.config().source_blocks,
        0 <= i < e.blocks()[b].params().k,
    ensures
        object_after(
            e.config(),
            Decoder::initial(e.config()),
            all_packets(e.blocks(), 0, e.config().source_blocks as int),
            packets_before(e.blocks(), b) + i,
        ) == progress(e, data, b, i),
    decreases b, i,
{
    let config = e.config();
    let z = config.source_blocks as int;
    let packets = all_packets(e.blocks(), 0, z);
    let start = Decoder::initial(config);
    let n = packets_before(e.blocks(), b) + i;
    config.lemma_layout();
    lemma_packets_before(e.blocks(), b);
    if i > 0 {
        lemma_progress(e, data, b, i - 1);
        lemma_step(e, data, b, i - 1);
        assert(object_after(config, start, packets, n) == object_step(
            config,
            object_after(config, start, packets, n - 1),
            packets[n - 1],
        ).0);
    } else if b > 0 {
        lemma_block_facts(e, data, b - 1);
        let last = e.blocks()[b - 1].params().k - 1;
        lemma_packets_before(e.blocks(), b - 1);
        assert(n == packets_before(e.blocks(), b - 1) + last + 1);
        lemma_progress(e, data, b - 1, last);
        lemma_step(e, data, b - 1, last);
        assert(object_after(config, start, packets, n) == object_step(
            config,
            object_after(config, start, packets, n - 1),
            packets[n - 1],
        ).0);
    } else {
        assert(n == 0);
        assert(e.blocks()[0].source().take(0) =~= Seq::<(u32, Seq<u8>)>::empty());
        assert(progress(e, data, 0, 0).blocks =~= start.blocks);
        assert(progress(e, data, 0, 0).outputs =~= start.outputs);
    }
}

/// What the decoder of block `b` does with source packet `i` of the block
/// after the ones before it.
proof fn lemma_block_step(e: Encoder, data: Seq<u8>, b: int, i: int)
    requires
        encodes(e, data),
        0 <= b < e.config().source_blocks,
        0 <= i < e.blocks()[b].params().k,
    ensures
        ({
            let packet = all_packets(e.blocks(), 0, e.config().source_blocks as int)[packets_before(
                e.blocks(),
                b,
            ) + i];
            let eb = e.blocks()[b];
            &&& packet.len() == 4 + e.config().symbol_size
            &&& packet[0] == b
            &&& decode_step(
                block_setup(e.config(), b),
                BlockState { known: eb.source().take(i), solved: false },
                packet,
            ) == (
                BlockState { known: eb.source().take(i + 1), solved: i == eb.params().k - 1 },
                if i == eb.params().k - 1 {
                    Ok::<Option<Seq<u8>>, Error>(Some(block_data(data, e.config(), b)))
                } else {
                    Ok::<Option<Seq<u8>>, Error>(None)
                },
            )
        }),
{
    let config = e.config();
    let eb = e.blocks()[b];
    let piece = block_data(data, config, b);
    config.lemma_layout();
    lemma_block_facts(e, data, b);
    lemma_packet_places(e.blocks(), config.source_blocks as int, b, i);
    lemma_packets_genuine(eb, 0, i);
    lemma_source_step(eb, piece, i);
}

/// What source packet `i` of block `b` does to the decoder that has taken
/// the packets before it.
proof fn lemma_step(e: Encoder, data: Seq<u8>, b: int, i: int)
    requires
        encodes(e, data),
        0 <= b < e.config().source_blocks,
        0 <= i < e.blocks()[b].params().k,
    ensures
        object_step(
            e.config(),
            progress(e, data, b, i),
            all_packets(e.blocks(), 0, e.config().source_blocks as int)[packets_before(
                e.blocks(),
                b,
            ) + i],
        ) == (if i < e.blocks()[b].params().k - 1 {
            (progress(e, data, b, i + 1), Ok::<Option<Seq<u8>>, Error>(None))
        } else if b < e.config().source_blocks - 1 {
            (progress(e, data, b + 1, 0), Ok::<Option<Seq<u8>>, Error>(None))
        } else {
            (
                ObjectState {
                    blocks: progress(e, data, b + 1, 0).blocks,
                    outputs: progress(e, data, b + 1, 0).outputs,
                    done: true,
                },
                Ok::<Option<Seq<u8>>, Error>(Some(data)),
            )
        }),
{
    let config = e.config();
    let z = config.source_blocks as int;
    let eb = e.blocks()[b];
    let k = eb.params().k as int;
    let piece = block_data(data, config, b);
    let packet = all_packets(e.blocks(), 0, z)[packets_before(e.blocks(), b) + i];
    config.lemma_layout();
    lemma_block_step(e, data, b, i);
    let state = progress(e, data, b, i);
    let setup = block_setup(config, b);
    assert(state.blocks[b] == (BlockState { known: eb.source().take(i), solved: false }));
    let block = BlockState { known: eb.source().take(i + 1), solved: i == k - 1 };
    assert(decode_step(setup, state.blocks[b], packet).0 == block);
    let blocks = state.blocks.update(b, block);
    if i < k - 1 {
        assert(blocks =~= progress(e, data, b, i + 1).blocks);
        assert(state.outputs =~= progress(e, data, b, i + 1).outputs);
    } else {
        let outputs = state.outputs.update(b, piece);
        assert(eb.source().take(k) =~= eb.source());
        assert(blocks =~= progress(e, data, b + 1, 0).blocks) by {
            if b < z - 1 {
                assert(e.blocks()[b + 1].source().take(0) =~= Seq::<(u32, Seq<u8>)>::empty());
            }
        }
        assert(outputs =~= progress(e, data, b + 1, 0).outputs);
        if b < z - 1 {
            assert(!blocks[b + 1].solved);
            assert(!all_solved(blocks));
        } else {
            assert forall|q: int| 0 <= q < blocks.len() implies (#[trigger] blocks[q]).solved by {}
            assert(all_solved(blocks));
            lemma_joined_data(e, data, outputs, z);
            assert(data.subrange(0, config.block_start(z)) =~= data);
            assert(joined_outputs(outputs, blocks.len() as int) == data);
        }
    }
}

/// Round trip of an object: a decoder that is fed the source packets of the
/// encoder of an object, block after block and in order, answers the last
/// of them with the object, and the ones before with nothing.
pub proof fn law_object_round_trip(e: Encoder, data: Seq<u8>, b: int, i: int)
    requires
        encodes(e, data),
        0 <= b < e.config().source_blocks,
        0 <= i < e.blocks()[b].params().k,
    ensures
        object_answer(
            e.config(),
            Decoder::initial(e.config()),
            all_packets(e.blocks(), 0, e.config().source_blocks as int),
            packets_before(e.blocks(), b) + i,
        ) == (if b == e.config().source_blocks - 1 && i == e.blocks()[b].params().k - 1 {
            Ok::<Option<Seq<u8>>, Error>(Some(data))
        } else {
            Ok::<Option<Seq<u8>>, Error>(None)
        }),
{
    lemma_progress(e, data, b, i);
    lemma_step(e, data, b, i);
}

/// The octets `packet`, if the decoder of the object hands them to a block,
/// carry a genuine encoding symbol of the encoder of that block.
pub open spec fn genuine_for(e: Encoder, packet: Seq<u8>) -> bool {
    packet.len() == 4 + e.config().symbol_size && packet[0] < e.config().source_blocks
        ==> genuine_packet(
        e.blocks()[packet[0] as int].params(),
        e.config().symbol_size as int,
        e.blocks()[packet[0] as int].intermediate(),
        packet,
    )
}

/// The decoder of the object holds genuine symbols of the encoder only, and
/// the octets of every solved block are the data of that block.
pub open spec fn on_track(e: Encoder, data: Seq<u8>, state: ObjectState) -> bool {
    &&& state.blocks.len() == e.config().source_blocks
    &&& state.outputs.len() == e.config().source_blocks
    &&& forall|b: int|
        0 <= b < e.config().source_blocks ==> {
            &&& valid_state(block_setup(e.config(), b), #[trigger] state.blocks[b])
            &&& all_genuine(
                e.blocks()[b].params(),
                e.config().symbol_size as int,
                e.blocks()[b].intermediate(),
                state.blocks[b].known,
            )
            &&& (state.blocks[b].solved ==> state.outputs[b] == block_data(data, e.config(), b))
        }
}

/// A genuine packet keeps the decoder of the object on track, and if the
/// decoder answers with octets, they are the object.
proof fn lemma_on_track(e: Encoder, data: Seq<u8>, state: ObjectState, packet: Seq<u8>)
    requires
        encodes(e, data),
        on_track(e, data, state),
        genuine_for(e, packet),
    ensures
        on_track(e, data, object_step(e.config(), state, packet).0),
        match object_step(e.config(), state, packet).1 {
            Ok(Some(bytes)) => bytes == data,
            _ => true,
        },
{
    let config = e.config();
    let z = config.source_blocks as int;
    config.lemma_layout();
    if !state.done && packet.len() == 4 + config.symbol_size && packet[0] < config.source_blocks {
        let b = packet[0] as int;
        let eb = e.blocks()[b];
        let piece = block_data(data, config, b);
        let setup = block_setup(config, b);
        lemma_block_facts(e, data, b);
        config.lemma_block(b);
        lemma_params_for(symbols_needed(config.block_length(b), config.symbol_size as int));
        assert(valid_setup(setup));
        law_systematic(eb);
        law_genuine_answer(setup, state.blocks[b], packet, eb.intermediate());
        law_block_bytes(eb, piece);
        let (block, answer) = decode_step(setup, state.blocks[b], packet);
        let blocks = state.blocks.update(b, block);
        match answer {
            Ok(Some(bytes)) => {
                let outputs = state.outputs.update(b, bytes);
                assert(bytes == piece);
                let after = object_step(config, state, packet).0;
                assert(after.blocks == blocks && after.outputs == outputs);
                assert forall|q: int| 0 <= q < z implies {
                    &&& valid_state(block_setup(config, q), #[trigger] blocks[q])
                    &&& all_genuine(
                        e.blocks()[q].params(),
                        config.symbol_size as int,
                        e.blocks()[q].intermediate(),
                        blocks[q].known,
                    )
                    &&& (blocks[q].solved ==> outputs[q] == block_data(data, config, q))
                } by {
                    if q != b {
                        assert(blocks[q] == state.blocks[q]);
                        assert(outputs[q] == state.outputs[q]);
                    }
                }
                if all_solved(blocks) {
                    assert forall|q: int| 0 <= q < z implies #[trigger] outputs[q] == block_data(
                        data,
                        config,
                        q,
                    ) by {
                        assert(blocks[q].solved);
                    }
                    lemma_joined_data(e, data, outputs, z);
                    assert(data.subrange(0, config.block_start(z)) =~= data);
                }
            },
            Ok(None) => {
                let after = object_step(config, state, packet).0;
                assert(after.blocks == blocks && after.outputs == state.outputs);
                assert forall|q: int| 0 <= q < z implies {
                    &&& valid_state(block_setup(config, q), #[trigger] blocks[q])
                    &&& all_genuine(
                        e.blocks()[q].params(),
                        config.symbol_size as int,
                        e.blocks()[q].intermediate(),
                        blocks[q].known,
                    )
                    &&& (blocks[q].solved ==> state.outputs[q] == block_data(data, config, q))
                } by {
                    if q != b {
                        assert(blocks[q] == state.blocks[q]);
                    } else {
                        assert(block.solved ==> state.blocks[b].solved);
                    }
                }
            },
            Err(_) => {},
        }
    }
}

/// Erasure tolerance of an object: whatever genuine packets of the encoder
/// of an object a decoder is fed, in whatever order and with whatever losses
/// and repetitions, every answer with octets is the object.
pub proof fn law_any_answer_is_the_object(e: Encoder, data: Seq<u8>, packets: Seq<Seq<u8>>, n: int)
    requires
        encodes(e, data),
        0 <= n < packets.len(),
        forall|i: int| 0 <= i < packets.len() ==> genuine_for(e, #[trigger] packets[i]),
    ensures
        match object_answer(e.config(), Decoder::initial(e.config()), packets, n) {
            Ok(Some(bytes)) => bytes == data,
            _ => true,
        },
{
    lemma_object_run(e, data, packets, n);
    lemma_on_track(
        e,
        data,
        object_after(e.config(), Decoder::initial(e.config()), packets, n),
        packets[n],
    );
}

/// A decoder of the object that is fed genuine packets stays on track.
proof fn lemma_object_run(e: Encoder, data: Seq<u8>, packets: Seq<Seq<u8>>, n: int)
    requires
        encodes(e, data),
        0 <= n <= packets.len(),
        forall|i: int| 0 <= i < packets.len() ==> genuine_for(e, #[trigger] packets[i]),
    ensures
        on_track(e, data, object_after(e.config(), Decoder::initial(e.config()), packets, n)),
    decreases n,
{
    if n > 0 {
        lemma_object_run(e, data, packets, n - 1);
        lemma_on_track(
            e,
            data,
            object_after(e.config(), Decoder::initial(e.config()), packets, n - 1),
            packets[n - 1],
        );
    } else {
        let start = Decoder::initial(e.config());
        assert forall|b: int| 0 <= b < e.config().source_blocks implies {
            &&& valid_state(block_setup(e.config(), b), #[trigger] start.blocks[b])
            &&& all_genuine(
                e.blocks()[b].params(),
                e.config().symbol_size as int,
                e.blocks()[b].intermediate(),
                start.blocks[b].known,
            )
            &&& (start.blocks[b].solved ==> start.outputs[b] == block_data(data, e.config(), b))
        } by {}
    }
}

/// A packet that the decoder of an object is fed a second time changes
/// nothing and is answered with no octets.
pub proof fn law_object_idempotent(
    config: ObjectTransmissionInformation,
    state: ObjectState,
    packet: Seq<u8>,
)
    requires
        state.blocks.len() == config.source_blocks,
        state.outputs.len() == config.source_blocks,
    ensures
        object_step(config, object_step(config, state, packet).0, packet).0 == object_step(
            config,
            state,
            packet,
        ).0,
        object_step(config, object_step(config, state, packet).0, packet).1 is Err || object_step(
            config,
            object_step(config, state, packet).0,
            packet,
        ).1 == Ok::<Option<Seq<u8>>, Error>(None),
{
    if !state.done && packet.len() == 4 + config.symbol_size && packet[0] < config.source_blocks {
        let b = packet[0] as int;
        let setup = block_setup(config, b);
        law_idempotent(setup, state.blocks[b], packet);
        let (block, answer) = decode_step(setup, state.blocks[b], packet);
        let once = object_step(config, state, packet).0;
        if !once.done {
            assert(once.blocks[b] == block || once.blocks[b] == state.blocks[b]);
            let twice = object_step(config, once, packet).0;
            assert(twice.blocks =~= once.blocks);
        }
    }
}

/// The octets of every solved block have the length of the block.
pub open spec fn lengths_right(config: ObjectTransmissionInformation, state: ObjectState) -> bool {
    &&& state.blocks.len() == config.source_blocks
    &&& state.outputs.len() == config.source_blocks
    &&& forall|b: int|
        0 <= b < config.source_blocks && (#[trigger] state.blocks[b]).solved ==> state.outputs[b].len()
            == config.block_length(b)
}

/// The octets of the first `n` blocks together reach up to the start of block `n`.
proof fn lemma_joined_outputs_len(
    config: ObjectTransmissionInformation,
    outputs: Seq<Seq<u8>>,
    n: int,
)
    requires
        config.wf(),
        0 <= n <= config.source_blocks,
        forall|b: int| 0 <= b < n ==> (#[trigger] outputs[b]).len() == config.block_length(b),
    ensures
        joined_outputs(outputs, n).len() == config.block_start(n),
    decreases n,
{
    config.lemma_layout();
    if n > 0 {
        lemma_joined_outputs_len(config, outputs, n - 1);
        assert(outputs[n - 1].len() == config.block_length(n - 1));
    }
}

/// Whatever packets the decoder of an object is fed, the octets that it
/// gives out have the transfer length.
pub proof fn law_answer_length(
    config: ObjectTransmissionInformation,
    state: ObjectState,
    packet: Seq<u8>,
)
    requires
        config.wf(),
        lengths_right(config, state),
    ensures
        lengths_right(config, object_step(config, state, packet).0),
        match object_step(config, state, packet).1 {
            Ok(Some(bytes)) => bytes.len() == config.transfer_length,
            _ => true,
        },
{
    let z = config.source_blocks as int;
    config.lemma_layout();
    if !state.done && packet.len() == 4 + config.symbol_size && packet[0] < config.source_blocks {
        let b = packet[0] as int;
        let setup = block_setup(config, b);
        config.lemma_block(b);
        lemma_params_for(symbols_needed(config.block_length(b), config.symbol_size as int));
        assert(valid_setup(setup));
        let (block, answer) = decode_step(setup, state.blocks[b], packet);
        let blocks = state.blocks.update(b, block);
        match answer {
            Ok(Some(bytes)) => {
                let outputs = state.outputs.update(b, bytes);
                let known = state.blocks[b].known.push(
                    (crate::packet::header_esi(packet), packet.skip(4)),
                );
                law_block_length(setup, crate::block_decoder::solution(setup, known));
                assert(bytes.len() == config.block_length(b));
                assert forall|q: int| 0 <= q < z && (#[trigger] blocks[q]).solved implies outputs[q].len()
                    == config.block_length(q) by {
                    if q != b {
                        assert(blocks[q] == state.blocks[q]);
                    }
                }
                if all_solved(blocks) {
                    assert forall|q: int| 0 <= q < z implies (#[trigger] outputs[q]).len()
                        == config.block_length(q) by {
                        assert(blocks[q].solved);
                    }
                    lemma_joined_outputs_len(config, outputs, z);
                }
            },
            Ok(None) => {
                assert forall|q: int| 0 <= q < z && (#[trigger] blocks[q]).solved implies state.outputs[q].len()
                    == config.block_length(q) by {
                    if q != b {
                        assert(blocks[q] == state.blocks[q]);
                    } else {
                        assert(block.solved ==> state.blocks[b].solved);
                    }
                }
            },
            Err(_) => {},
        }
    }
}

} // verus!
