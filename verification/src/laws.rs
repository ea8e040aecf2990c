//! What holds of the block decoder whatever it is fed, and what holds when
//! it is fed the packets of an encoder.
use crate::block_decoder::{
    block_bytes, decodable, decode_step, joined, seen, solution, valid_setup, valid_state,
    BlockSetup, BlockState,
};
use crate::block_encoder::{block_packets, source_symbols, symbol_of, SourceBlockEncoder};
use crate::error::Error;
use crate::linear::{dot_at, lemma_dot_prefix, row_holds, shaped, solves};
use crate::matrix::{lemma_lt_row_len, lt_row_spec};
use crate::packet::{header_esi, law_read_written, serialized, MAX_ESI};
use crate::params::{symbols_needed, BlockParams};
use crate::system::{
    block_system, constraint_equation, determines, encoding_symbol, symbol_equation,
    symbols_have_size,
};
use vstd::prelude::*;

verus! {

/// The symbols `c` satisfy the LDPC and HDPC constraints of the block.
pub open spec fn satisfies_constraints(p: BlockParams, t: int, c: Seq<Seq<u8>>) -> bool {
    &&& shaped(c, p.l(), t)
    &&& forall|r: int|
        0 <= r < p.s + p.h ==> row_holds(#[trigger] constraint_equation(p, t, r), c, p.l(), t)
}

/// Every known symbol is the encoding symbol that belongs to the
/// intermediate symbols `c` and to its identifier.
pub open spec fn all_genuine(p: BlockParams, t: int, c: Seq<Seq<u8>>, known: Seq<(u32, Seq<u8>)>) -> bool {
    forall|i: int|
        0 <= i < known.len() ==> (#[trigger] known[i]).1 == encoding_symbol(p, t, c, known[i].0)
}

/// The octets `packet`, if they have the length of a packet, carry the
/// encoding symbol that belongs to `c` and to the identifier in their header.
pub open spec fn genuine_packet(p: BlockParams, t: int, c: Seq<Seq<u8>>, packet: Seq<u8>) -> bool {
    packet.len() == 4 + t ==> packet.skip(4) == encoding_symbol(p, t, c, header_esi(packet))
}

/// The equation of a symbol holds of `c` exactly when the symbol is the
/// encoding symbol of `c` with that identifier.
pub proof fn lemma_symbol_equation(p: BlockParams, t: int, c: Seq<Seq<u8>>, esi: u32, payload: Seq<u8>)
    requires
        p.wf(),
        0 <= t,
        payload.len() == t,
    ensures
        row_holds(symbol_equation(p, esi, payload), c, p.l(), t) <==> payload == encoding_symbol(
            p,
            t,
            c,
            esi,
        ),
{
    let row = lt_row_spec(p, esi as int);
    let eq = symbol_equation(p, esi, payload);
    let sym = encoding_symbol(p, t, c, esi);
    lemma_lt_row_len(p, esi as int);
    p.lemma_shape();
    assert forall|i: int| 0 <= i < t implies dot_at(eq, c, i, p.l()) == sym[i] && eq[p.l() + i]
        == payload[i] by {
        lemma_dot_prefix(eq, row, c, i, p.l());
    }
    if row_holds(eq, c, p.l(), t) {
        assert forall|i: int| 0 <= i < t implies payload[i] == sym[i] by {
            assert(dot_at(eq, c, i, p.l()) == eq[p.l() + i]);
        }
        assert(payload =~= sym);
    }
    if payload == sym {
        assert forall|i: int| 0 <= i < t implies #[trigger] dot_at(eq, c, i, p.l()) == eq[p.l()
            + i] by {}
    }
}

/// The symbols `c` solve the system of the known symbols exactly when they
/// satisfy the constraints and every known symbol is genuine.
pub proof fn lemma_solves_iff_genuine(p: BlockParams, t: int, c: Seq<Seq<u8>>, known: Seq<(u32, Seq<u8>)>)
    requires
        p.wf(),
        0 <= t,
        symbols_have_size(known, t),
    ensures
        solves(block_system(p, t, known), c, p.l(), t) <==> (satisfies_constraints(p, t, c)
            && all_genuine(p, t, c, known)),
{
    let sys = block_system(p, t, known);
    let n = p.s + p.h;
    p.lemma_shape();
    if solves(sys, c, p.l(), t) {
        assert forall|r: int| 0 <= r < n implies row_holds(
            #[trigger] constraint_equation(p, t, r),
            c,
            p.l(),
            t,
        ) by {
            assert(sys[r] == constraint_equation(p, t, r));
            assert(row_holds(sys[r], c, p.l(), t));
        }
        assert forall|i: int| 0 <= i < known.len() implies (#[trigger] known[i]).1
            == encoding_symbol(p, t, c, known[i].0) by {
            assert(sys[n + i] == symbol_equation(p, known[i].0, known[i].1));
            assert(row_holds(sys[n + i], c, p.l(), t));
            assert(known[i].1.len() == t);
            lemma_symbol_equation(p, t, c, known[i].0, known[i].1);
        }
    }
    if satisfies_constraints(p, t, c) && all_genuine(p, t, c, known) {
        assert forall|r: int| 0 <= r < sys.len() implies row_holds(#[trigger] sys[r], c, p.l(), t) by {
            if r < n {
                assert(row_holds(constraint_equation(p, t, r), c, p.l(), t));
            } else {
                let i = r - n;
                assert(known[i].1.len() == t);
                assert(known[i].1 == encoding_symbol(p, t, c, known[i].0));
                lemma_symbol_equation(p, t, c, known[i].0, known[i].1);
            }
        }
    }
}

/// A decoder that holds genuine symbols and is fed a genuine packet holds
/// genuine symbols afterwards, and if it answers with octets, they are the
/// octets of the block that belongs to the intermediate symbols.
pub proof fn law_genuine_answer(setup: BlockSetup, state: BlockState, packet: Seq<u8>, c: Seq<Seq<u8>>)
    requires
        valid_setup(setup),
        valid_state(setup, state),
        satisfies_constraints(setup.params, setup.symbol_size as int, c),
        all_genuine(setup.params, setup.symbol_size as int, c, state.known),
        genuine_packet(setup.params, setup.symbol_size as int, c, packet),
    ensures
        valid_state(setup, decode_step(setup, state, packet).0),
        all_genuine(setup.params, setup.symbol_size as int, c, decode_step(setup, state, packet).0.known),
        match decode_step(setup, state, packet).1 {
            Ok(Some(bytes)) => bytes == block_bytes(setup, c),
            _ => true,
        },
{
    let p = setup.params;
    let t = setup.symbol_size as int;
    let (after, answer) = decode_step(setup, state, packet);
    if !state.solved && packet.len() == 4 + t && packet[0] == setup.source_block_id && !seen(
        state.known,
        header_esi(packet),
    ) {
        let esi = header_esi(packet);
        let known = state.known.push((esi, packet.skip(4)));
        assert(after.known == known);
        assert forall|i: int| 0 <= i < known.len() implies (#[trigger] known[i]).1
            == encoding_symbol(p, t, c, known[i].0) by {
            if i < state.known.len() {
                assert(known[i] == state.known[i]);
            }
        }
        assert forall|i: int| 0 <= i < known.len() implies (#[trigger] known[i]).1.len() == t by {
            if i < state.known.len() {
                assert(known[i] == state.known[i]);
            }
        }
        assert forall|i: int, j: int| 0 <= i < j < known.len() implies (#[trigger] known[i]).0 != (
        #[trigger] known[j]).0 by {
            if j < state.known.len() {
                assert(known[i] == state.known[i]);
                assert(known[j] == state.known[j]);
            } else {
                assert(known[i] == state.known[i]);
            }
        }
        if decodable(setup, known) {
            let s = solution(setup, known);
            lemma_solves_iff_genuine(p, t, c, known);
            assert(determines(p, t, known, s));
            assert(solves(block_system(p, t, known), c, p.l(), t));
            assert(c == s);
        }
    }
}

/// With fewer than `K'` symbols after the packet, the decoder is not solved
/// and gives out nothing.
pub proof fn law_insufficient(setup: BlockSetup, state: BlockState, packet: Seq<u8>)
    requires
        !state.solved,
        state.known.len() + 1 < setup.params.k,
    ensures
        !decode_step(setup, state, packet).0.solved,
        decode_step(setup, state, packet).1 is Err || decode_step(setup, state, packet).1
            == Ok::<Option<Seq<u8>>, Error>(None),
        decode_step(setup, state, packet).0.known.len() <= state.known.len() + 1,
{
}

/// The decoder is solved only with at least `K'` symbols, all of different identifiers.
pub proof fn law_solved_needs_enough(setup: BlockSetup, state: BlockState, packet: Seq<u8>)
    requires
        valid_state(setup, state),
        !state.solved,
        decode_step(setup, state, packet).0.solved,
    ensures
        decode_step(setup, state, packet).0.known.len() >= setup.params.k,
        decodable(setup, decode_step(setup, state, packet).0.known),
{
}

/// A packet that is fed a second time changes nothing and is answered with
/// no octets.
pub proof fn law_idempotent(setup: BlockSetup, state: BlockState, packet: Seq<u8>)
    ensures
        decode_step(setup, decode_step(setup, state, packet).0, packet).0 == decode_step(
            setup,
            state,
            packet,
        ).0,
        decode_step(setup, decode_step(setup, state, packet).0, packet).1 is Err || decode_step(
            setup,
            decode_step(setup, state, packet).0,
            packet,
        ).1 == Ok::<Option<Seq<u8>>, Error>(None),
{
    let t = setup.symbol_size as int;
    let (after, answer) = decode_step(setup, state, packet);
    if !state.solved && packet.len() == 4 + t && packet[0] == setup.source_block_id && !seen(
        state.known,
        header_esi(packet),
    ) {
        let known = state.known.push((header_esi(packet), packet.skip(4)));
        assert(known[state.known.len() as int].0 == header_esi(packet));
        assert(seen(known, header_esi(packet)));
    }
}

/// A decoder that has received nothing.
pub open spec fn fresh() -> BlockState {
    BlockState { known: Seq::<(u32, Seq<u8>)>::empty(), solved: false }
}

/// The decoder after the first `n` of the packets.
pub open spec fn state_after(setup: BlockSetup, start: BlockState, packets: Seq<Seq<u8>>, n: int) -> BlockState
    decreases n,
{
    if n <= 0 {
        start
    } else {
        decode_step(setup, state_after(setup, start, packets, n - 1), packets[n - 1]).0
    }
}

/// The answer of the decoder to packet `n`, after the packets before it.
pub open spec fn answer_to(setup: BlockSetup, start: BlockState, packets: Seq<Seq<u8>>, n: int) -> Result<
    Option<Seq<u8>>,
    Error,
> {
    decode_step(setup, state_after(setup, start, packets, n), packets[n]).1
}

/// The setup of the decoder that belongs to an encoder of `len` octets.
pub open spec fn setup_for(e: SourceBlockEncoder, len: int) -> BlockSetup {
    BlockSetup {
        source_block_id: e.block_id(),
        symbol_size: e.symbol_size() as u16,
        block_length: len as u64,
        params: e.params(),
    }
}

/// The intermediate symbols of an encoder satisfy the constraints, and its
/// source symbols are the encoding symbols with the identifiers below `K'`:
/// the code is systematic.
pub proof fn law_systematic(e: SourceBlockEncoder)
    requires
        e.wf(),
    ensures
        satisfies_constraints(e.params(), e.symbol_size(), e.intermediate()),
        all_genuine(e.params(), e.symbol_size(), e.intermediate(), e.source()),
        forall|i: int|
            0 <= i < e.params().k ==> (#[trigger] e.source()[i]).1 == encoding_symbol(
                e.params(),
                e.symbol_size(),
                e.intermediate(),
                i as u32,
            ),
{
    lemma_solves_iff_genuine(e.params(), e.symbol_size(), e.intermediate(), e.source());
    assert forall|i: int| 0 <= i < e.params().k implies (#[trigger] e.source()[i]).1
        == encoding_symbol(e.params(), e.symbol_size(), e.intermediate(), i as u32) by {
        assert(e.source()[i].0 == i);
    }
}

/// Every packet that an encoder gives out is genuine for its intermediate
/// symbols, has the length of a packet and names the block of the encoder.
pub proof fn lemma_packets_genuine(e: SourceBlockEncoder, repair: int, i: int)
    requires
        e.wf(),
        0 <= i < e.params().k + repair <= MAX_ESI + 1,
    ensures
        block_packets(e, repair)[i].len() == 4 + e.symbol_size(),
        block_packets(e, repair)[i][0] == e.block_id(),
        header_esi(block_packets(e, repair)[i]) == i,
        block_packets(e, repair)[i].skip(4) == encoding_symbol(
            e.params(),
            e.symbol_size(),
            e.intermediate(),
            i as u32,
        ),
        genuine_packet(e.params(), e.symbol_size(), e.intermediate(), block_packets(e, repair)[i]),
{
    law_systematic(e);
    let sym = encoding_symbol(e.params(), e.symbol_size(), e.intermediate(), i as u32);
    if i < e.params().k {
        assert(e.source()[i].1 == sym);
    }
    assert(block_packets(e, repair)[i] == serialized(e.block_id(), i as u32, sym));
    law_read_written(e.block_id(), i as u32, sym);
}

/// The first `k` source symbols of `data`, one after the other, are the
/// data followed by zeros.
proof fn lemma_joined_symbols(p: BlockParams, t: int, c: Seq<Seq<u8>>, data: Seq<u8>, k: int)
    requires
        0 < t,
        0 <= k,
        forall|i: int| 0 <= i < k ==> #[trigger] encoding_symbol(p, t, c, i as u32) == symbol_of(data, t, i),
        k <= u32::MAX,
    ensures
        joined(p, t, c, k).len() == k * t,
        forall|n: int|
            0 <= n < k * t ==> #[trigger] joined(p, t, c, k)[n] == (if n < data.len() {
                data[n]
            } else {
                0u8
            }),
    decreases k,
{
    if k > 0 {
        lemma_joined_symbols(p, t, c, data, k - 1);
        assert(k * t == (k - 1) * t + t) by (nonlinear_arith);
        assert((k - 1) * t >= 0) by (nonlinear_arith)
            requires
                k >= 1,
                t > 0,
        ;
        let sym = encoding_symbol(p, t, c, (k - 1) as u32);
        assert(sym == symbol_of(data, t, k - 1));
        assert forall|n: int| 0 <= n < k * t implies #[trigger] joined(p, t, c, k)[n] == (if n
            < data.len() {
            data[n]
        } else {
            0u8
        }) by {
            if n >= (k - 1) * t {
                let j = n - (k - 1) * t;
                assert(joined(p, t, c, k)[n] == sym[j]);
            } else {
                assert(joined(p, t, c, k)[n] == joined(p, t, c, k - 1)[n]);
            }
        }
    } else {
        assert(0 * t == 0);
    }
}

/// The octets of the block that belongs to the intermediate symbols of an
/// encoder are the data that the encoder was made for.
pub proof fn law_block_bytes(e: SourceBlockEncoder, data: Seq<u8>)
    requires
        e.wf(),
        e.source() == source_symbols(data, e.symbol_size(), e.params().k as int),
        symbols_needed(data.len() as int, e.symbol_size()) <= e.params().k,
        data.len() <= u64::MAX,
    ensures
        block_bytes(setup_for(e, data.len() as int), e.intermediate()) == data,
{
    let p = e.params();
    let t = e.symbol_size();
    let c = e.intermediate();
    let needed = symbols_needed(data.len() as int, t);
    law_systematic(e);
    crate::oti::lemma_ceil(data.len() as int, t);
    assert forall|i: int| 0 <= i < needed implies #[trigger] encoding_symbol(p, t, c, i as u32)
        == symbol_of(data, t, i) by {
        assert(e.source()[i].1 == encoding_symbol(p, t, c, i as u32));
    }
    lemma_joined_symbols(p, t, c, data, needed);
    let out = block_bytes(setup_for(e, data.len() as int), c);
    assert(out =~= data);
}

/// A decoder that holds the first `n` source symbols of an encoder and is
/// fed source packet `n` holds the first `n + 1` afterwards. It answers the
/// last source packet with the data of the block and is solved then, and
/// answers the ones before with nothing.
pub proof fn lemma_source_step(e: SourceBlockEncoder, data: Seq<u8>, n: int)
    requires
        e.wf(),
        e.source() == source_symbols(data, e.symbol_size(), e.params().k as int),
        symbols_needed(data.len() as int, e.symbol_size()) <= e.params().k,
        data.len() <= u64::MAX,
        0 <= n < e.params().k,
    ensures
        decode_step(
            setup_for(e, data.len() as int),
            BlockState { known: e.source().take(n), solved: false },
            block_packets(e, 0)[n],
        ) == (
            BlockState { known: e.source().take(n + 1), solved: n == e.params().k - 1 },
            if n == e.params().k - 1 {
                Ok::<Option<Seq<u8>>, Error>(Some(data))
            } else {
                Ok::<Option<Seq<u8>>, Error>(None)
            },
        ),
{
    let setup = setup_for(e, data.len() as int);
    let p = e.params();
    let t = e.symbol_size();
    p.lemma_shape();
    let before = BlockState { known: e.source().take(n), solved: false };
    let packet = block_packets(e, 0)[n];
    lemma_packets_genuine(e, 0, n);
    law_systematic(e);
    assert(!seen(before.known, header_esi(packet))) by {
        if seen(before.known, header_esi(packet)) {
            let i = choose|i: int|
                0 <= i < before.known.len() && (#[trigger] before.known[i]).0 == header_esi(packet);
            assert(before.known[i] == e.source()[i]);
            assert(e.source()[i].0 == i);
        }
    }
    let known = before.known.push((header_esi(packet), packet.skip(4)));
    assert(e.source()[n].0 == n);
    assert(known =~= e.source().take(n + 1));
    if n == p.k - 1 {
        assert(e.source().take(n + 1) =~= e.source());
        assert(known == e.source());
        assert(known.len() == p.k);
        assert(setup.symbol_size as int == t);
        assert(setup.params == p);
        assert(determines(setup.params, setup.symbol_size as int, known, e.intermediate()));
        assert(decodable(setup, known));
        let s = solution(setup, known);
        assert(determines(p, t, known, s));
        assert(solves(block_system(p, t, known), e.intermediate(), p.l(), t));
        assert(s == e.intermediate());
        law_block_bytes(e, data);
    }
}

/// After the first `n` source packets in order, for `n` up to `K' - 1`, the
/// decoder holds the first `n` source symbols and is not solved.
proof fn lemma_source_prefix(e: SourceBlockEncoder, data: Seq<u8>, n: int)
    requires
        e.wf(),
        e.source() == source_symbols(data, e.symbol_size(), e.params().k as int),
        symbols_needed(data.len() as int, e.symbol_size()) <= e.params().k,
        data.len() <= u64::MAX,
        0 <= n < e.params().k,
    ensures
        state_after(setup_for(e, data.len() as int), fresh(), block_packets(e, 0), n) == (BlockState {
            known: e.source().take(n),
            solved: false,
        }),
    decreases n,
{
    if n > 0 {
        lemma_source_prefix(e, data, n - 1);
        lemma_source_step(e, data, n - 1);
    } else {
        assert(e.source().take(0) =~= Seq::<(u32, Seq<u8>)>::empty());
    }
}

/// Round trip of a block: a decoder that is fed the source packets of an
/// encoder, in order, answers the last of them with the data of the block,
/// and the ones before with nothing.
pub proof fn law_block_round_trip(e: SourceBlockEncoder, data: Seq<u8>, n: int)
    requires
        e.wf(),
        e.source() == source_symbols(data, e.symbol_size(), e.params().k as int),
        symbols_needed(data.len() as int, e.symbol_size()) <= e.params().k,
        data.len() <= u64::MAX,
        0 <= n < e.params().k,
    ensures
        n < e.params().k - 1 ==> answer_to(
            setup_for(e, data.len() as int),
            fresh(),
            block_packets(e, 0),
            n,
        ) == Ok::<Option<Seq<u8>>, Error>(None),
        n == e.params().k - 1 ==> answer_to(
            setup_for(e, data.len() as int),
            fresh(),
            block_packets(e, 0),
            n,
        ) == Ok::<Option<Seq<u8>>, Error>(Some(data)),
{
    lemma_source_prefix(e, data, n);
    lemma_source_step(e, data, n);
}

/// Erasure tolerance: whatever genuine packets of an encoder a decoder is
/// fed, in whatever order and with whatever losses and repetitions, every
/// answer with octets is the data of the block.
pub proof fn law_any_answer_is_the_block(
    e: SourceBlockEncoder,
    data: Seq<u8>,
    packets: Seq<Seq<u8>>,
    n: int,
)
    requires
        e.wf(),
        e.source() == source_symbols(data, e.symbol_size(), e.params().k as int),
        e.params().fits(symbols_needed(data.len() as int, e.symbol_size())),
        data.len() <= u64::MAX,
        0 <= n < packets.len(),
        forall|i: int|
            0 <= i < packets.len() ==> genuine_packet(
                e.params(),
                e.symbol_size(),
                e.intermediate(),
                #[trigger] packets[i],
            ),
    ensures
        match answer_to(setup_for(e, data.len() as int), fresh(), packets, n) {
            Ok(Some(bytes)) => bytes == data,
            _ => true,
        },
{
    let setup = setup_for(e, data.len() as int);
    law_systematic(e);
    lemma_genuine_run(setup, e.intermediate(), packets, n);
    let before = state_after(setup, fresh(), packets, n);
    law_genuine_answer(setup, before, packets[n], e.intermediate());
    law_block_bytes(e, data);
}

/// A decoder that is fed genuine packets holds genuine symbols.
proof fn lemma_genuine_run(setup: BlockSetup, c: Seq<Seq<u8>>, packets: Seq<Seq<u8>>, n: int)
    requires
        valid_setup(setup),
        satisfies_constraints(setup.params, setup.symbol_size as int, c),
        0 <= n <= packets.len(),
        forall|i: int|
            0 <= i < packets.len() ==> genuine_packet(
                setup.params,
                setup.symbol_size as int,
                c,
                #[trigger] packets[i],
            ),
    ensures
        valid_state(setup, state_after(setup, fresh(), packets, n)),
        all_genuine(
            setup.params,
            setup.symbol_size as int,
            c,
            state_after(setup, fresh(), packets, n).known,
        ),
    decreases n,
{
    if n > 0 {
        lemma_genuine_run(setup, c, packets, n - 1);
        law_genuine_answer(setup, state_after(setup, fresh(), packets, n - 1), packets[n - 1], c);
    }
}

/// Determinism: two encoders of the same block, with the same symbol size,
/// parameters and source symbols, hold the same intermediate symbols and give
/// out the same packets.
pub proof fn law_deterministic(e1: SourceBlockEncoder, e2: SourceBlockEncoder, repair: int)
    requires
        e1.wf(),
        e2.wf(),
        e1.block_id() == e2.block_id(),
        e1.symbol_size() == e2.symbol_size(),
        e1.params() == e2.params(),
        e1.source() == e2.source(),
    ensures
        e1.intermediate() == e2.intermediate(),
        block_packets(e1, repair) == block_packets(e2, repair),
{
    let sys = block_system(e1.params(), e1.symbol_size(), e1.source());
    assert(solves(sys, e2.intermediate(), e1.params().l(), e1.symbol_size()));
    assert(e1.intermediate() == e2.intermediate());
    assert(block_packets(e1, repair) =~= block_packets(e2, repair));
}

/// The first `k` encoding symbols, one after the other, have `k * t` octets.
proof fn lemma_joined_len(p: BlockParams, t: int, c: Seq<Seq<u8>>, k: int)
    requires
        0 <= t,
        0 <= k,
    ensures
        joined(p, t, c, k).len() == k * t,
    decreases k,
{
    if k > 0 {
        lemma_joined_len(p, t, c, k - 1);
        assert(k * t == (k - 1) * t + t) by (nonlinear_arith);
    } else {
        assert(0 * t == 0);
    }
}

/// Whatever the intermediate symbols, the octets that a decoder gives out
/// for its block have the length of the block.
pub proof fn law_block_length(setup: BlockSetup, c: Seq<Seq<u8>>)
    requires
        valid_setup(setup),
    ensures
        block_bytes(setup, c).len() == setup.block_length,
{
    let t = setup.symbol_size as int;
    let needed = symbols_needed(setup.block_length as int, t);
    crate::oti::lemma_ceil(setup.block_length as int, t);
    lemma_joined_len(setup.params, t, c, needed);
}

} // verus!
