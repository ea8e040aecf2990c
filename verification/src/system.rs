//! The system of equations of a source block.
//!
//! The unknowns are the `L` intermediate symbols of the block. The LDPC and
//! HDPC rows tie them to each other; each known encoding symbol adds the
//! equation that its LT row combines them into that symbol.
use crate::gf256::{lemma_mul_zero_one, lemma_xor_laws, multiply};
use crate::linear::{combination, dot_at, rows_have_width, shaped, unique_solution};
use crate::matrix::{
    hdpc_row, hdpc_row_spec, ldpc_row, ldpc_row_spec, lemma_lt_row_len, lt_row, lt_row_spec,
    zero_row,
};
use crate::params::BlockParams;
use crate::solver::{rows_view, solve};
use vstd::prelude::*;

verus! {

/// An encoding symbol that is known, with its identifier.
#[derive(Debug)]
pub struct KnownSymbol {
    /// The identifier of the symbol within its block.
    pub esi: u32,
    /// The symbol.
    pub payload: Vec<u8>,
}

/// The known symbols as pairs of identifier and octets.
pub open spec fn known_view(known: Seq<KnownSymbol>) -> Seq<(u32, Seq<u8>)> {
    Seq::new(known.len(), |i: int| (known[i].esi, known[i].payload@))
}

/// Every known symbol has `t` octets.
pub open spec fn symbols_have_size(known: Seq<(u32, Seq<u8>)>, t: int) -> bool {
    forall|i: int| 0 <= i < known.len() ==> (#[trigger] known[i]).1.len() == t
}

/// Constraint `r` of the block: an LDPC row for `r` below `S`, an HDPC row
/// from there on, each with a right-hand side of zeros.
pub open spec fn constraint_equation(p: BlockParams, t: int, r: int) -> Seq<u8> {
    if r < p.s {
        ldpc_row_spec(p, r) + zero_row(t)
    } else {
        hdpc_row_spec(p, r - p.s) + zero_row(t)
    }
}

/// The equation of a known symbol: its LT row, and the symbol as right-hand side.
pub open spec fn symbol_equation(p: BlockParams, esi: u32, payload: Seq<u8>) -> Seq<u8> {
    lt_row_spec(p, esi as int) + payload
}

/// The system of the block: its `S + H` constraints, then one equation for
/// each known symbol.
pub open spec fn block_system(p: BlockParams, t: int, known: Seq<(u32, Seq<u8>)>) -> Seq<Seq<u8>> {
    Seq::new(
        (p.s + p.h + known.len()) as nat,
        |r: int|
            if r < p.s + p.h {
                constraint_equation(p, t, r)
            } else {
                symbol_equation(p, known[r - p.s - p.h].0, known[r - p.s - p.h].1)
            },
    )
}

/// `c` holds the intermediate symbols that the known symbols determine:
/// the one solution of their system.
pub open spec fn determines(p: BlockParams, t: int, known: Seq<(u32, Seq<u8>)>, c: Seq<Seq<u8>>) -> bool {
    unique_solution(block_system(p, t, known), c, p.l(), t)
}

/// The encoding symbol with identifier `esi` that belongs to the intermediate symbols `c`.
pub open spec fn encoding_symbol(p: BlockParams, t: int, c: Seq<Seq<u8>>, esi: u32) -> Seq<u8> {
    combination(lt_row_spec(p, esi as int), c, p.l(), t)
}

/// Every equation of the system has `L + t` octets.
pub proof fn lemma_system_width(p: BlockParams, t: int, known: Seq<(u32, Seq<u8>)>)
    requires
        p.wf(),
        0 <= t,
        symbols_have_size(known, t),
    ensures
        rows_have_width(block_system(p, t, known), p.l() + t),
{
    p.lemma_shape();
    let sys = block_system(p, t, known);
    assert forall|r: int| 0 <= r < sys.len() implies (#[trigger] sys[r]).len() == p.l() + t by {
        if r >= p.s + p.h {
            lemma_lt_row_len(p, known[r - p.s - p.h].0 as int);
            assert(known[r - p.s - p.h].1.len() == t);
        }
    }
}

/// Appends `t` zeros to `row`.
fn append_zeros(row: &mut Vec<u8>, t: usize)
    ensures
        final(row)@ == old(row)@ + zero_row(t as int),
{
    let ghost before = row@;
    let mut i: usize = 0;
    while i < t
        invariant
            i <= t,
            row@.len() == before.len() + i,
            forall|q: int| 0 <= q < before.len() ==> row@[q] == before[q],
            forall|q: int| before.len() <= q < row@.len() ==> row@[q] == 0,
        decreases t - i,
    {
        row.push(0);
        i += 1;
    }
    assert(row@ =~= before + zero_row(t as int));
}

/// Appends the octets of `tail` to `row`.
pub fn append_octets(row: &mut Vec<u8>, tail: &Vec<u8>)
    ensures
        final(row)@ == old(row)@ + tail@,
{
    let ghost before = row@;
    let n: usize = tail.len();
    let mut i: usize = 0;
    while i < n
        invariant
            i <= n,
            n == tail@.len(),
            row@.len() == before.len() + i,
            forall|q: int| 0 <= q < before.len() ==> row@[q] == before[q],
            forall|q: int| 0 <= q < i ==> row@[before.len() + q] == tail@[q],
        decreases n - i,
    {
        row.push(tail[i]);
        i += 1;
    }
    assert(row@ =~= before + tail@);
}

/// The system of the block for the known symbols.
pub fn build_system(p: &BlockParams, t: usize, known: &Vec<KnownSymbol>) -> (rows: Vec<Vec<u8>>)
    requires
        p.wf(),
        symbols_have_size(known_view(known@), t as int),
    ensures
        rows_view(rows@) == block_system(*p, t as int, known_view(known@)),
        rows_have_width(rows_view(rows@), p.l() + t),
{
    proof {
        p.lemma_shape();
        lemma_system_width(*p, t as int, known_view(known@));
    }
    let ghost sys = block_system(*p, t as int, known_view(known@));
    let mut rows: Vec<Vec<u8>> = Vec::new();
    let mut i: u32 = 0;
    while i < p.s
        invariant
            i <= p.s,
            p.wf(),
            sys == block_system(*p, t as int, known_view(known@)),
            rows@.len() == i,
            forall|q: int| 0 <= q < i ==> (#[trigger] rows@[q])@ == sys[q],
        decreases p.s - i,
    {
        let mut row = ldpc_row(p, i);
        append_zeros(&mut row, t);
        rows.push(row);
        i += 1;
    }
    let mut i: u32 = 0;
    while i < p.h
        invariant
            i <= p.h,
            p.wf(),
            p.s + p.h < 3000,
            sys == block_system(*p, t as int, known_view(known@)),
            rows@.len() == p.s + i,
            forall|q: int| 0 <= q < p.s + i ==> (#[trigger] rows@[q])@ == sys[q],
        decreases p.h - i,
    {
        let mut row = hdpc_row(p, i);
        append_zeros(&mut row, t);
        rows.push(row);
        i += 1;
    }
    let n: usize = known.len();
    let mut i: usize = 0;
    while i < n
        invariant
            i <= n,
            n == known@.len(),
            p.wf(),
            p.s + p.h < 3000,
            sys == block_system(*p, t as int, known_view(known@)),
            rows@.len() == p.s + p.h + i,
            forall|q: int| 0 <= q < p.s + p.h + i ==> (#[trigger] rows@[q])@ == sys[q],
        decreases n - i,
    {
        let mut row = lt_row(p, known[i].esi);
        append_octets(&mut row, &known[i].payload);
        proof {
            let kv = known_view(known@);
            assert(kv[i as int] == (known@[i as int].esi, known@[i as int].payload@));
            assert(sys[p.s + p.h + i] == symbol_equation(*p, kv[i as int].0, kv[i as int].1));
        }
        rows.push(row);
        i += 1;
    }
    assert(rows_view(rows@) =~= sys);
    rows
}

/// The intermediate symbols that the known symbols determine, when they
/// determine them: when their system has exactly one solution.
pub fn intermediate_symbols(p: &BlockParams, t: usize, known: &Vec<KnownSymbol>) -> (res: Option<
    Vec<Vec<u8>>,
>)
    requires
        p.wf(),
        0 < t <= 65535,
        symbols_have_size(known_view(known@), t as int),
    ensures
        match res {
            Some(c) => determines(*p, t as int, known_view(known@), rows_view(c@)),
            None => forall|y: Seq<Seq<u8>>| !determines(*p, t as int, known_view(known@), y),
        },
{
    proof {
        p.lemma_shape();
    }
    let rows = build_system(p, t, known);
    let l: usize = p.intermediate_symbols();
    solve(rows, l, t)
}

/// The symbol that the coefficients of `coef` combine the symbols of `c` into.
pub fn combine(coef: &Vec<u8>, c: &Vec<Vec<u8>>, t: usize) -> (out: Vec<u8>)
    requires
        coef@.len() == c@.len(),
        shaped(rows_view(c@), c@.len() as int, t as int),
    ensures
        out@ == combination(coef@, rows_view(c@), c@.len() as int, t as int),
{
    let l: usize = coef.len();
    let ghost cv = rows_view(c@);
    let mut out: Vec<u8> = Vec::new();
    let mut i: usize = 0;
    while i < t
        invariant
            i <= t,
            out@.len() == i,
            forall|q: int| 0 <= q < i ==> out@[q] == 0,
        decreases t - i,
    {
        out.push(0);
        i += 1;
    }
    let mut k: usize = 0;
    while k < l
        invariant
            k <= l,
            l == coef@.len(),
            l == c@.len(),
            cv == rows_view(c@),
            shaped(cv, l as int, t as int),
            out@.len() == t,
            forall|q: int| 0 <= q < t ==> out@[q] == dot_at(coef@, cv, q, k as int),
        decreases l - k,
    {
        let f: u8 = coef[k];
        assert(cv[k as int].len() == t);
        if f != 0 {
            let mut i: usize = 0;
            while i < t
                invariant
                    i <= t,
                    k < l,
                    l == coef@.len(),
                    l == c@.len(),
                    f == coef@[k as int],
                    cv == rows_view(c@),
                    c@[k as int]@.len() == t,
                    out@.len() == t,
                    forall|q: int| 0 <= q < i ==> out@[q] == dot_at(coef@, cv, q, k + 1),
                    forall|q: int| i <= q < t ==> out@[q] == dot_at(coef@, cv, q, k as int),
                decreases t - i,
            {
                let v: u8 = out[i] ^ multiply(f, c[k][i]);
                out.set(i, v);
                i += 1;
            }
        } else {
            assert forall|q: int| 0 <= q < t implies out@[q] == dot_at(coef@, cv, q, k + 1) by {
                lemma_mul_zero_one(cv[k as int][q]);
                lemma_xor_laws(out@[q], 0, 0);
            }
        }
        k += 1;
    }
    assert(out@ =~= combination(coef@, cv, l as int, t as int));
    out
}

} // verus!
