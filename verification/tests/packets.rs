use raptorq::error::Error;
use raptorq::packet::{EncodingPacket, HEADER_LEN, MAX_ESI};

#[test]
fn packet_is_written_most_significant_first() {
    let packet = EncodingPacket {
        source_block_id: 7,
        encoding_symbol_id: 0x01_02_03,
        payload: vec![9, 8, 7],
    };
    assert_eq!(packet.serialize(), vec![7u8, 1, 2, 3, 9, 8, 7]);
    let largest = EncodingPacket { source_block_id: 255, encoding_symbol_id: MAX_ESI, payload: vec![] };
    assert_eq!(largest.serialize(), vec![255u8, 255, 255, 255]);
    assert_eq!(HEADER_LEN, 4);
    assert_eq!(MAX_ESI, 16_777_215);
}

#[test]
fn packet_is_read_back() {
    let packet = EncodingPacket::deserialize(&[7, 1, 2, 3, 9, 8, 7]).unwrap();
    assert_eq!(packet.source_block_id, 7);
    assert_eq!(packet.encoding_symbol_id, 66_051);
    assert_eq!(packet.payload, vec![9u8, 8, 7]);
    let empty = EncodingPacket::deserialize(&[0, 0, 0, 10]).unwrap();
    assert_eq!(empty.encoding_symbol_id, 10);
    assert_eq!(empty.payload, Vec::<u8>::new());
}

#[test]
fn short_packets_are_refused() {
    assert_eq!(EncodingPacket::deserialize(&[]).err(), Some(Error::MalformedPacket));
    assert_eq!(EncodingPacket::deserialize(&[1, 2, 3]).err(), Some(Error::MalformedPacket));
}

#[test]
fn reading_and_writing_are_inverse() {
    for esi in [0u32, 1, 255, 256, 65_535, 65_536, 10_000_000, MAX_ESI] {
        let packet = EncodingPacket { source_block_id: 3, encoding_symbol_id: esi, payload: vec![1, 2] };
        let bytes = packet.serialize();
        let back = EncodingPacket::deserialize(&bytes).unwrap();
        assert_eq!(back.source_block_id, 3);
        assert_eq!(back.encoding_symbol_id, esi);
        assert_eq!(back.payload, vec![1u8, 2]);
        assert_eq!(back.serialize(), bytes);
    }
}
