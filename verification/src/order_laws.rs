//! The order of delivery does not matter: what a block decoder gives out
//! depends only on which genuine packets it was fed.
use crate::block_decoder::{
    block_bytes, decodable, decode_step, seen, solution, valid_setup, valid_state, BlockSetup,
    BlockState,
};
use crate::laws::{
    all_genuine, answer_to, fresh, genuine_packet, law_genuine_answer, lemma_solves_iff_genuine,
    satisfies_constraints, state_after,
};
use crate::linear::{solves, unique_solution};
use crate::packet::header_esi;
use crate::system::{block_system, determines, encoding_symbol};
use vstd::prelude::*;
use vstd::set_lib::lemma_len_subset;

verus! {

/// The decoder takes the symbol of the packet: the packet has the length
/// of a header and one symbol and names the block of the decoder.
pub open spec fn accepted(setup: BlockSetup, packet: Seq<u8>) -> bool {
    packet.len() == 4 + setup.symbol_size && packet[0] == setup.source_block_id
}

/// The identifier and the symbol that a packet carries.
pub open spec fn pair_of(packet: Seq<u8>) -> (u32, Seq<u8>) {
    (header_esi(packet), packet.skip(4))
}

/// The symbols that the first `n` packets carry to the decoder.
pub open spec fn symbols_in(setup: BlockSetup, packets: Seq<Seq<u8>>, n: int) -> Set<(u32, Seq<u8>)>
    decreases n,
{
    if n <= 0 {
        Set::empty()
    } else if accepted(setup, packets[n - 1]) {
        symbols_in(setup, packets, n - 1).insert(pair_of(packets[n - 1]))
    } else {
        symbols_in(setup, packets, n - 1)
    }
}

/// The symbols `y` satisfy the constraints and have every symbol of `s` as
/// the encoding symbol of its identifier.
pub open spec fn explains(setup: BlockSetup, y: Seq<Seq<u8>>, s: Set<(u32, Seq<u8>)>) -> bool {
    &&& satisfies_constraints(setup.params, setup.symbol_size as int, y)
    &&& forall|x: (u32, Seq<u8>)|
        #[trigger] s.contains(x) ==> x.1 == encoding_symbol(
            setup.params,
            setup.symbol_size as int,
            y,
            x.0,
        )
}

/// The set of symbols is sufficient for the intermediate symbols `c`: it
/// holds at least `K'` symbols, and no other intermediate symbols explain it.
pub open spec fn sufficient(setup: BlockSetup, c: Seq<Seq<u8>>, s: Set<(u32, Seq<u8>)>) -> bool {
    &&& s.len() >= setup.params.k
    &&& forall|y: Seq<Seq<u8>>| #[trigger] explains(setup, y, s) ==> y == c
}

/// The octets that the decoder has given out in answer to the first `n` packets.
pub open spec fn given_out(setup: BlockSetup, packets: Seq<Seq<u8>>, n: int) -> Option<Seq<u8>>
    decreases n,
{
    if n <= 0 {
        None
    } else {
        match answer_to(setup, fresh(), packets, n - 1) {
            Ok(Some(bytes)) => Some(bytes),
            _ => given_out(setup, packets, n - 1),
        }
    }
}

/// Every packet of `p` occurs in `q`.
pub open spec fn occur_in(p: Seq<Seq<u8>>, q: Seq<Seq<u8>>) -> bool {
    forall|i: int| 0 <= i < p.len() ==> q.contains(#[trigger] p[i])
}

/// The symbols of the first `n` packets are those of the accepted packets among them.
pub proof fn lemma_symbols_in(setup: BlockSetup, packets: Seq<Seq<u8>>, n: int)
    requires
        0 <= n <= packets.len(),
    ensures
        symbols_in(setup, packets, n).finite(),
        forall|x: (u32, Seq<u8>)|
            #[trigger] symbols_in(setup, packets, n).contains(x) <==> exists|i: int|
                0 <= i < n && accepted(setup, #[trigger] packets[i]) && x == pair_of(packets[i]),
    decreases n,
{
    if n > 0 {
        lemma_symbols_in(setup, packets, n - 1);
        let s0 = symbols_in(setup, packets, n - 1);
        let s = symbols_in(setup, packets, n);
        assert forall|x: (u32, Seq<u8>)| #[trigger] s.contains(x) <==> exists|i: int|
            0 <= i < n && accepted(setup, #[trigger] packets[i]) && x == pair_of(packets[i]) by {
            if s.contains(x) {
                if s0.contains(x) {
                    let i = choose|i: int|
                        0 <= i < n - 1 && accepted(setup, #[trigger] packets[i]) && x == pair_of(
                            packets[i],
                        );
                    assert(0 <= i < n && accepted(setup, packets[i]) && x == pair_of(packets[i]));
                } else {
                    assert(accepted(setup, packets[n - 1]) && x == pair_of(packets[n - 1]));
                }
            }
            if exists|i: int|
                0 <= i < n && accepted(setup, #[trigger] packets[i]) && x == pair_of(packets[i]) {
                let i = choose|i: int|
                    0 <= i < n && accepted(setup, #[trigger] packets[i]) && x == pair_of(packets[i]);
                if i < n - 1 {
                    assert(s0.contains(x));
                }
            }
        }
    }
}

/// Packets that occur in each other carry the same symbols.
pub proof fn lemma_same_symbols(setup: BlockSetup, p: Seq<Seq<u8>>, q: Seq<Seq<u8>>)
    requires
        occur_in(p, q),
        occur_in(q, p),
    ensures
        symbols_in(setup, p, p.len() as int) == symbols_in(setup, q, q.len() as int),
{
    let sp = symbols_in(setup, p, p.len() as int);
    let sq = symbols_in(setup, q, q.len() as int);
    lemma_symbols_in(setup, p, p.len() as int);
    lemma_symbols_in(setup, q, q.len() as int);
    assert forall|x: (u32, Seq<u8>)| sp.contains(x) <==> sq.contains(x) by {
        if sp.contains(x) {
            let i = choose|i: int|
                0 <= i < p.len() && accepted(setup, #[trigger] p[i]) && x == pair_of(p[i]);
            assert(q.contains(p[i]));
            let j = choose|j: int| 0 <= j < q.len() && q[j] == p[i];
            assert(accepted(setup, q[j]) && x == pair_of(q[j]));
        }
        if sq.contains(x) {
            let i = choose|i: int|
                0 <= i < q.len() && accepted(setup, #[trigger] q[i]) && x == pair_of(q[i]);
            assert(p.contains(q[i]));
            let j = choose|j: int| 0 <= j < p.len() && p[j] == q[i];
            assert(accepted(setup, p[j]) && x == pair_of(p[j]));
        }
    }
    assert(sp =~= sq);
}

/// A set that holds a sufficient set is sufficient.
pub proof fn lemma_more_is_sufficient(
    setup: BlockSetup,
    c: Seq<Seq<u8>>,
    s: Set<(u32, Seq<u8>)>,
    larger: Set<(u32, Seq<u8>)>,
)
    requires
        sufficient(setup, c, s),
        s.subset_of(larger),
        larger.finite(),
    ensures
        sufficient(setup, c, larger),
{
    lemma_len_subset(s, larger);
    assert forall|y: Seq<Seq<u8>>| #[trigger] explains(setup, y, larger) implies y == c by {
        assert forall|x: (u32, Seq<u8>)| #[trigger] s.contains(x) implies x.1 == encoding_symbol(
            setup.params,
            setup.symbol_size as int,
            y,
            x.0,
        ) by {
            assert(larger.contains(x));
        }
        assert(explains(setup, y, s));
    }
}

/// Genuine symbols of different identifiers can be decoded exactly when,
/// as a set, they are sufficient.
pub proof fn lemma_decodable_iff_sufficient(setup: BlockSetup, c: Seq<Seq<u8>>, known: Seq<(u32, Seq<u8>)>)
    requires
        valid_setup(setup),
        valid_state(setup, BlockState { known, solved: false }),
        satisfies_constraints(setup.params, setup.symbol_size as int, c),
        all_genuine(setup.params, setup.symbol_size as int, c, known),
    ensures
        decodable(setup, known) <==> sufficient(setup, c, known.to_set()),
{
    let p = setup.params;
    let t = setup.symbol_size as int;
    let s = known.to_set();
    let sys = block_system(p, t, known);
    assert(known.no_duplicates()) by {
        assert forall|i: int, j: int|
            0 <= i < known.len() && 0 <= j < known.len() && i != j implies known[i] != known[j] by {
            if i < j {
                assert(known[i].0 != known[j].0);
            } else {
                assert(known[j].0 != known[i].0);
            }
        }
    }
    known.unique_seq_to_set();
    lemma_solves_iff_genuine(p, t, c, known);
    assert(solves(sys, c, p.l(), t));
    if decodable(setup, known) {
        let y0 = solution(setup, known);
        assert(determines(p, t, known, y0));
        assert(c == y0);
        assert forall|y: Seq<Seq<u8>>| #[trigger] explains(setup, y, s) implies y == c by {
            assert forall|i: int| 0 <= i < known.len() implies (#[trigger] known[i]).1
                == encoding_symbol(p, t, y, known[i].0) by {
                assert(s.contains(known[i]));
            }
            lemma_solves_iff_genuine(p, t, y, known);
            assert(solves(sys, y, p.l(), t));
        }
    }
    if sufficient(setup, c, s) {
        assert forall|z: Seq<Seq<u8>>| #[trigger] solves(sys, z, p.l(), t) implies z == c by {
            lemma_solves_iff_genuine(p, t, z, known);
            assert forall|x: (u32, Seq<u8>)| #[trigger] s.contains(x) implies x.1
                == encoding_symbol(p, t, z, x.0) by {
                let i = choose|i: int| 0 <= i < known.len() && known[i] == x;
                assert(known[i].1 == encoding_symbol(p, t, z, known[i].0));
            }
            assert(explains(setup, z, s));
        }
        assert(unique_solution(sys, c, p.l(), t));
        assert(determines(p, t, known, c));
    }
}

/// The symbols `s` with the symbol of the packet, if the decoder takes it.
pub open spec fn with_packet(setup: BlockSetup, s: Set<(u32, Seq<u8>)>, packet: Seq<u8>) -> Set<
    (u32, Seq<u8>),
> {
    if accepted(setup, packet) {
        s.insert(pair_of(packet))
    } else {
        s
    }
}

/// The decoder holds genuine symbols; it is solved exactly when the set `s`
/// is sufficient, and until then it holds exactly the symbols of `s`.
pub open spec fn in_step(setup: BlockSetup, c: Seq<Seq<u8>>, state: BlockState, s: Set<(u32, Seq<u8>)>) -> bool {
    &&& s.finite()
    &&& valid_state(setup, state)
    &&& all_genuine(setup.params, setup.symbol_size as int, c, state.known)
    &&& (!state.solved ==> state.known.to_set() == s)
    &&& (state.solved <==> sufficient(setup, c, s))
}

/// One genuine packet keeps the decoder and the set of the symbols fed to
/// it in step.
pub proof fn lemma_in_step(
    setup: BlockSetup,
    c: Seq<Seq<u8>>,
    state: BlockState,
    s: Set<(u32, Seq<u8>)>,
    packet: Seq<u8>,
)
    requires
        valid_setup(setup),
        satisfies_constraints(setup.params, setup.symbol_size as int, c),
        genuine_packet(setup.params, setup.symbol_size as int, c, packet),
        in_step(setup, c, state, s),
    ensures
        in_step(setup, c, decode_step(setup, state, packet).0, with_packet(setup, s, packet)),
        match decode_step(setup, state, packet).1 {
            Ok(Some(bytes)) => bytes == block_bytes(setup, c) && !state.solved && decode_step(
                setup,
                state,
                packet,
            ).0.solved,
            Ok(None) => decode_step(setup, state, packet).0.solved == state.solved,
            Err(_) => decode_step(setup, state, packet).0 == state,
        },
{
    let p = setup.params;
    let t = setup.symbol_size as int;
    let after = decode_step(setup, state, packet).0;
    let larger = with_packet(setup, s, packet);
    law_genuine_answer(setup, state, packet, c);
    if state.solved {
        assert(s.subset_of(larger));
        lemma_more_is_sufficient(setup, c, s, larger);
    } else if !accepted(setup, packet) {
        assert(after == state);
    } else if seen(state.known, header_esi(packet)) {
        let i = choose|i: int|
            0 <= i < state.known.len() && (#[trigger] state.known[i]).0 == header_esi(packet);
        assert(state.known[i].1 == encoding_symbol(p, t, c, state.known[i].0));
        assert(state.known[i] == pair_of(packet));
        assert(state.known.to_set().contains(pair_of(packet)));
        assert(larger =~= s);
    } else {
        let known = state.known.push(pair_of(packet));
        assert(after.known == known);
        state.known.lemma_push_to_set_commute(pair_of(packet));
        assert(known.to_set() =~= larger);
        lemma_decodable_iff_sufficient(setup, c, known);
    }
}

/// A decoder that is fed genuine packets is solved exactly when the symbols
/// that the packets carry are sufficient; until then it holds exactly those
/// symbols.
pub proof fn lemma_run(setup: BlockSetup, c: Seq<Seq<u8>>, packets: Seq<Seq<u8>>, n: int)
    requires
        valid_setup(setup),
        satisfies_constraints(setup.params, setup.symbol_size as int, c),
        0 <= n <= packets.len(),
        forall|i: int|
            0 <= i < packets.len() ==> genuine_packet(
                setup.params,
                setup.symbol_size as int,
                c,
                #[trigger] packets[i],
            ),
    ensures
        in_step(
            setup,
            c,
            state_after(setup, fresh(), packets, n),
            symbols_in(setup, packets, n),
        ),
        given_out(setup, packets, n) == (if state_after(setup, fresh(), packets, n).solved {
            Some(block_bytes(setup, c))
        } else {
            None::<Seq<u8>>
        }),
    decreases n,
{
    setup.params.lemma_shape();
    let s = symbols_in(setup, packets, n);
    if n == 0 {
        assert(fresh().known.to_set() =~= s);
        assert(s.len() == 0);
    } else {
        lemma_run(setup, c, packets, n - 1);
        lemma_in_step(
            setup,
            c,
            state_after(setup, fresh(), packets, n - 1),
            symbols_in(setup, packets, n - 1),
            packets[n - 1],
        );
    }
}

/// Order independence: two deliveries of genuine packets in which the same
/// packets occur, in whatever order and however often, make the decoder give
/// out the same: the octets of the block if the packets are sufficient, and
/// nothing if they are not.
pub proof fn law_order_independent(
    setup: BlockSetup,
    c: Seq<Seq<u8>>,
    p: Seq<Seq<u8>>,
    q: Seq<Seq<u8>>,
)
    requires
        valid_setup(setup),
        satisfies_constraints(setup.params, setup.symbol_size as int, c),
        occur_in(p, q),
        occur_in(q, p),
        forall|i: int|
            0 <= i < p.len() ==> genuine_packet(
                setup.params,
                setup.symbol_size as int,
                c,
                #[trigger] p[i],
            ),
    ensures
        given_out(setup, p, p.len() as int) == given_out(setup, q, q.len() as int),
        given_out(setup, p, p.len() as int) == (if sufficient(
            setup,
            c,
            symbols_in(setup, p, p.len() as int),
        ) {
            Some(block_bytes(setup, c))
        } else {
            None::<Seq<u8>>
        }),
{
    assert forall|i: int| 0 <= i < q.len() implies genuine_packet(
        setup.params,
        setup.symbol_size as int,
        c,
        #[trigger] q[i],
    ) by {
        assert(p.contains(q[i]));
        let j = choose|j: int| 0 <= j < p.len() && p[j] == q[i];
        assert(genuine_packet(setup.params, setup.symbol_size as int, c, p[j]));
    }
    lemma_run(setup, c, p, p.len() as int);
    lemma_run(setup, c, q, q.len() as int);
    lemma_same_symbols(setup, p, q);
}

} // verus!
