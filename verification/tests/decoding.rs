use raptorq::block_decoder::SourceBlockDecoder;
use raptorq::block_encoder::SourceBlockEncoder;
use raptorq::error::Error;

fn sample(len: usize) -> Vec<u8> {
    (0..len).map(|i| ((i * 89 + 3) % 256) as u8).collect()
}

fn feed(decoder: &mut SourceBlockDecoder, packets: &[Vec<u8>]) -> Option<Vec<u8>> {
    let mut out = None;
    for packet in packets {
        if let Some(bytes) = decoder.decode(packet).unwrap() {
            assert!(out.is_none());
            out = Some(bytes);
        }
    }
    out
}

#[test]
fn source_packets_carry_the_data_verbatim() {
    let data = sample(100);
    let encoder = SourceBlockEncoder::new(5, 16, &data).unwrap();
    let packets = encoder.source_packets();
    assert_eq!(packets.len(), 10);
    for (i, packet) in packets.iter().enumerate() {
        assert_eq!(packet.len(), 20);
        assert_eq!(&packet[..4], &[5u8, 0, 0, i as u8]);
        let mut want = vec![0u8; 16];
        for j in 0..16 {
            if i * 16 + j < 100 {
                want[j] = data[i * 16 + j];
            }
        }
        assert_eq!(&packet[4..], &want[..]);
    }
}

#[test]
fn repair_packets_are_numbered_from_the_block_size() {
    let data = sample(100);
    let encoder = SourceBlockEncoder::new(5, 16, &data).unwrap();
    let repairs = encoder.repair_packets(3, 4);
    assert_eq!(repairs.len(), 4);
    for (i, packet) in repairs.iter().enumerate() {
        assert_eq!(packet.len(), 20);
        assert_eq!(&packet[..4], &[5u8, 0, 0, 13 + i as u8]);
    }
    assert_eq!(encoder.repair_packets(0, 0), Vec::<Vec<u8>>::new());
    let high = encoder.repair_packets(16_777_205, 1);
    assert_eq!(&high[0][..4], &[5u8, 255, 255, 255]);
}

#[test]
fn encoding_is_deterministic() {
    let data = sample(333);
    let one = SourceBlockEncoder::new(1, 8, &data).unwrap();
    let two = SourceBlockEncoder::new(1, 8, &data).unwrap();
    assert_eq!(one.source_packets(), two.source_packets());
    assert_eq!(one.repair_packets(0, 20), two.repair_packets(0, 20));
    assert_eq!(one.repair_packets(0, 20), one.repair_packets(0, 20));
    assert_eq!(one.repair_packets(5, 3)[..], one.repair_packets(0, 20)[5..8]);
}

#[test]
fn fewer_than_the_block_size_never_solve() {
    let data = sample(160);
    let encoder = SourceBlockEncoder::new(0, 16, &data).unwrap();
    let mut packets = encoder.source_packets();
    packets.extend(encoder.repair_packets(0, 10));
    for skip in 0..packets.len() - 9 {
        let mut decoder = SourceBlockDecoder::new(0, 16, 160).unwrap();
        assert_eq!(feed(&mut decoder, &packets[skip..skip + 9]), None);
        assert!(!decoder.is_solved());
        assert_eq!(decoder.received(), 9);
    }
}

#[test]
fn repeated_packets_count_once() {
    let data = sample(160);
    let encoder = SourceBlockEncoder::new(0, 16, &data).unwrap();
    let packets = encoder.source_packets();
    let mut decoder = SourceBlockDecoder::new(0, 16, 160).unwrap();
    for _ in 0..5 {
        assert_eq!(feed(&mut decoder, &packets[..9]), None);
        assert_eq!(decoder.received(), 9);
    }
    assert_eq!(decoder.decode(&packets[9]), Ok(Some(data)));
    assert!(decoder.is_solved());
    assert_eq!(decoder.received(), 10);
    assert_eq!(decoder.decode(&packets[9]), Ok(None));
    assert_eq!(decoder.decode(&packets[0]), Ok(None));
    assert_eq!(decoder.received(), 10);
}

#[test]
fn feeding_a_packet_twice_is_feeding_it_once() {
    let data = sample(500);
    let encoder = SourceBlockEncoder::new(0, 8, &data).unwrap();
    let mut packets = encoder.source_packets();
    packets.extend(encoder.repair_packets(0, 8));
    packets.retain(|p| p[3] % 7 != 0);
    let mut twice = Vec::new();
    for p in packets.iter() {
        twice.push(p.clone());
        twice.push(p.clone());
    }
    let mut a = SourceBlockDecoder::new(0, 8, 500).unwrap();
    let mut b = SourceBlockDecoder::new(0, 8, 500).unwrap();
    let out_a = feed(&mut a, &packets);
    let out_b = feed(&mut b, &twice);
    assert_eq!(out_a, out_b);
    assert_eq!(a.received(), b.received());
    assert_eq!(a.is_solved(), b.is_solved());
}

#[test]
fn any_order_gives_the_same_block() {
    let data = sample(777);
    let encoder = SourceBlockEncoder::new(2, 8, &data).unwrap();
    let mut packets = encoder.source_packets();
    packets.extend(encoder.repair_packets(0, 12));
    packets.remove(50);
    packets.remove(20);
    packets.remove(3);
    let mut forward = SourceBlockDecoder::new(2, 8, 777).unwrap();
    let out = feed(&mut forward, &packets);
    assert_eq!(out, Some(data.clone()));
    let mut reversed = packets.clone();
    reversed.reverse();
    let mut backward = SourceBlockDecoder::new(2, 8, 777).unwrap();
    assert_eq!(feed(&mut backward, &reversed), Some(data.clone()));
    let mut shuffled = Vec::new();
    for step in 0..7 {
        let mut i = step;
        while i < packets.len() {
            shuffled.push(packets[i].clone());
            i += 7;
        }
    }
    let mut mixed = SourceBlockDecoder::new(2, 8, 777).unwrap();
    assert_eq!(feed(&mut mixed, &shuffled), Some(data));
}

#[test]
fn padding_is_cut_off() {
    for len in [0usize, 1, 7, 8, 9, 79, 80, 81, 95, 96] {
        let data = sample(len);
        let encoder = SourceBlockEncoder::new(0, 8, &data).unwrap();
        let packets = encoder.source_packets();
        let mut decoder = SourceBlockDecoder::new(0, 8, len as u64).unwrap();
        assert_eq!(feed(&mut decoder, &packets), Some(data));
    }
}

#[test]
fn block_encoder_refuses_what_does_not_fit() {
    assert_eq!(SourceBlockEncoder::new(0, 0, &[1, 2, 3]).err(), Some(Error::Config));
    assert_eq!(SourceBlockEncoder::new(0, 1, &sample(2702)).err(), Some(Error::Capacity));
    assert_eq!(SourceBlockDecoder::new(0, 0, 10).err(), Some(Error::Config));
    assert_eq!(SourceBlockDecoder::new(0, 1, 2702).err(), Some(Error::Capacity));
    assert_eq!(SourceBlockDecoder::new(0, 8, 2701 * 8 + 1).err(), Some(Error::Capacity));
    assert!(SourceBlockDecoder::new(0, 8, 2701 * 8).is_ok());
}

#[test]
fn block_decoder_refuses_bad_packets_and_keeps_its_state() {
    let data = sample(160);
    let encoder = SourceBlockEncoder::new(4, 16, &data).unwrap();
    let packets = encoder.source_packets();
    let mut decoder = SourceBlockDecoder::new(4, 16, 160).unwrap();
    assert_eq!(feed(&mut decoder, &packets[..5]), None);
    assert_eq!(decoder.decode(&packets[5][..19]), Err(Error::MalformedPacket));
    assert_eq!(decoder.decode(&[4, 0, 0]), Err(Error::MalformedPacket));
    let mut long = packets[5].clone();
    long.push(0);
    assert_eq!(decoder.decode(&long), Err(Error::MalformedPacket));
    let mut other = packets[5].clone();
    other[0] = 3;
    assert_eq!(decoder.decode(&other), Err(Error::BlockMismatch));
    assert_eq!(decoder.received(), 5);
    assert_eq!(feed(&mut decoder, &packets[5..]), Some(data));
}
