use raptorq::block_decoder::SourceBlockDecoder;
use raptorq::block_encoder::SourceBlockEncoder;
use raptorq::tables::SIZE_K;

fn sample(len: usize) -> Vec<u8> {
    (0..len).map(|i| ((i * 31 + 7) % 251) as u8).collect()
}

#[test]
fn block_round_trip_with_all_source_packets() {
    let data = sample(80);
    let encoder = SourceBlockEncoder::new(3, 8, &data).unwrap();
    let packets = encoder.source_packets();
    assert_eq!(packets.len(), 10);
    let mut decoder = SourceBlockDecoder::new(3, 8, 80).unwrap();
    let mut out = None;
    for packet in packets.iter() {
        assert!(out.is_none());
        out = decoder.decode(packet).unwrap();
    }
    assert_eq!(out, Some(data));
}

#[test]
fn block_recovers_from_repair_packets_alone() {
    let data = sample(75);
    let encoder = SourceBlockEncoder::new(0, 8, &data).unwrap();
    let repairs = encoder.repair_packets(0, 14);
    let mut decoder = SourceBlockDecoder::new(0, 8, 75).unwrap();
    let mut out = None;
    for packet in repairs.iter() {
        if let Some(bytes) = decoder.decode(packet).unwrap() {
            out = Some(bytes);
        }
    }
    assert_eq!(out, Some(data));
}

#[test]
fn every_small_block_size_is_solvable() {
    let mut failed: Vec<u32> = Vec::new();
    for &k in SIZE_K.iter().take(40) {
        let data = sample(k as usize * 2);
        if SourceBlockEncoder::new(0, 2, &data).is_err() {
            failed.push(k);
        }
    }
    assert_eq!(failed, Vec::<u32>::new());
}
