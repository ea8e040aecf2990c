//! The encoding packet and its wire format.
//!
//! A packet on the wire is a header of four octets followed by the symbol:
//! the source block number in one octet, then the encoding symbol identifier
//! in three octets, most significant first.
use crate::error::Error;
use vstd::prelude::*;

verus! {

/// The length of the packet header.
pub const HEADER_LEN: usize = 4;

/// The largest encoding symbol identifier that the header can carry.
pub const MAX_ESI: u32 = 0xff_ffff;

/// An encoding symbol with the identifiers that say what it is.
#[derive(Debug)]
pub struct EncodingPacket {
    /// The number of the source block that the symbol belongs to.
    pub source_block_id: u8,
    /// The identifier of the symbol within its block.
    pub encoding_symbol_id: u32,
    /// The symbol itself.
    pub payload: Vec<u8>,
}

/// The wire form of a packet.
pub open spec fn serialized(source_block_id: u8, encoding_symbol_id: u32, payload: Seq<u8>) -> Seq<
    u8,
> {
    seq![
        source_block_id,
        (encoding_symbol_id / 65536) as u8,
        (encoding_symbol_id / 256 % 256) as u8,
        (encoding_symbol_id % 256) as u8,
    ] + payload
}

/// The encoding symbol identifier in the header of `bytes`.
pub open spec fn header_esi(bytes: Seq<u8>) -> u32 {
    (bytes[1] * 65536 + bytes[2] * 256 + bytes[3]) as u32
}

/// Reading what was written gives the packet back.
pub proof fn law_read_written(source_block_id: u8, encoding_symbol_id: u32, payload: Seq<u8>)
    requires
        encoding_symbol_id <= MAX_ESI,
    ensures
        serialized(source_block_id, encoding_symbol_id, payload).len() == 4 + payload.len(),
        serialized(source_block_id, encoding_symbol_id, payload)[0] == source_block_id,
        header_esi(serialized(source_block_id, encoding_symbol_id, payload)) == encoding_symbol_id,
        serialized(source_block_id, encoding_symbol_id, payload).skip(4) == payload,
{
    let s = serialized(source_block_id, encoding_symbol_id, payload);
    assert(s.skip(4) =~= payload);
}

/// Writing what was read gives the octets back.
pub proof fn law_written_read(bytes: Seq<u8>)
    requires
        bytes.len() >= 4,
    ensures
        header_esi(bytes) <= MAX_ESI,
        serialized(bytes[0], header_esi(bytes), bytes.skip(4)) == bytes,
{
    let s = serialized(bytes[0], header_esi(bytes), bytes.skip(4));
    assert(s =~= bytes);
}

impl EncodingPacket {
    /// The wire form of the packet.
    pub fn serialize(&self) -> (bytes: Vec<u8>)
        requires
            self.encoding_symbol_id <= MAX_ESI,
            self.payload@.len() + 4 <= usize::MAX,
        ensures
            bytes@ == serialized(self.source_block_id, self.encoding_symbol_id, self.payload@),
    {
        let esi: u32 = self.encoding_symbol_id;
        let mut bytes: Vec<u8> = Vec::new();
        bytes.push(self.source_block_id);
        bytes.push((esi / 65536) as u8);
        bytes.push((esi / 256 % 256) as u8);
        bytes.push((esi % 256) as u8);
        let n: usize = self.payload.len();
        let mut i: usize = 0;
        while i < n
            invariant
                i <= n,
                n == self.payload@.len(),
                bytes@.len() == 4 + i,
                bytes@.take(4) == serialized(
                    self.source_block_id,
                    self.encoding_symbol_id,
                    Seq::<u8>::empty(),
                ),
                forall|q: int| 0 <= q < i ==> bytes@[4 + q] == self.payload@[q],
            decreases n - i,
        {
            let ghost before = bytes@;
            bytes.push(self.payload[i]);
            assert(bytes@.take(4) =~= before.take(4));
            i += 1;
        }
        assert(bytes@ =~= serialized(self.source_block_id, self.encoding_symbol_id, self.payload@)) by {
            let want = serialized(self.source_block_id, self.encoding_symbol_id, self.payload@);
            let head = serialized(self.source_block_id, self.encoding_symbol_id, Seq::<u8>::empty());
            assert forall|q: int| 0 <= q < 4 implies bytes@[q] == want[q] by {
                assert(bytes@.take(4)[q] == head[q]);
            }
        }
        bytes
    }

    /// The packet that `bytes` is the wire form of. Octets too few to hold
    /// a header are refused; what follows the header is the symbol.
    pub fn deserialize(bytes: &[u8]) -> (res: Result<EncodingPacket, Error>)
        ensures
            bytes@.len() < 4 <==> res is Err,
            res is Err ==> res->Err_0 == Error::MalformedPacket,
            res is Ok ==> {
                &&& res->Ok_0.source_block_id == bytes@[0]
                &&& res->Ok_0.encoding_symbol_id == header_esi(bytes@)
                &&& res->Ok_0.encoding_symbol_id <= MAX_ESI
                &&& res->Ok_0.payload@ == bytes@.skip(4)
            },
    {
        let n: usize = bytes.len();
        if n < HEADER_LEN {
            return Err(Error::MalformedPacket);
        }
        let esi: u32 = (bytes[1] as u32) * 65536 + (bytes[2] as u32) * 256 + (bytes[3] as u32);
        let mut payload: Vec<u8> = Vec::new();
        let mut i: usize = HEADER_LEN;
        while i < n
            invariant
                4 <= i <= n,
                n == bytes@.len(),
                payload@.len() == i - 4,
                forall|q: int| 0 <= q < i - 4 ==> payload@[q] == bytes@[4 + q],
            decreases n - i,
        {
            payload.push(bytes[i]);
            i += 1;
        }
        assert(payload@ =~= bytes@.skip(4));
        Ok(EncodingPacket { source_block_id: bytes[0], encoding_symbol_id: esi, payload })
    }
}

} // verus!
