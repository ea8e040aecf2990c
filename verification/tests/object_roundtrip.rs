use raptorq::{Decoder, Encoder, Error};

fn sample(len: usize) -> Vec<u8> {
    (0..len).map(|i| ((i * 131 + 17) % 256) as u8).collect()
}

#[test]
fn object_round_trip_without_loss() {
    let data = sample(10_000);
    let encoder = Encoder::with_defaults(&data, 64).unwrap();
    let packets = encoder.get_encoded_packets(0);
    assert_eq!(packets.len(), 160);
    let mut decoder = Decoder::with_defaults(10_000, 64).unwrap();
    let mut out = None;
    for packet in packets.iter() {
        assert!(out.is_none());
        out = decoder.decode(packet).unwrap();
    }
    assert_eq!(out, Some(data));
}

#[test]
fn ten_thousand_octets_survive_two_losses_in_reverse_order() {
    let data = sample(10_000);
    let encoder = Encoder::with_defaults(&data, 64).unwrap();
    let config = encoder.transmission_information();
    assert_eq!(config.total_symbols, 157);
    assert_eq!(config.source_blocks, 1);
    let mut packets = encoder.get_encoded_packets(5);
    assert_eq!(packets.len(), 165);
    for packet in packets.iter() {
        assert_eq!(packet.len(), 68);
    }
    packets.remove(100);
    packets.remove(7);
    packets.reverse();
    let mut decoder = Decoder::with_defaults(10_000, 64).unwrap();
    let mut out = None;
    for packet in packets.iter() {
        if let Some(bytes) = decoder.decode(packet).unwrap() {
            assert!(out.is_none());
            out = Some(bytes);
        }
    }
    assert_eq!(out, Some(data));
}

#[test]
fn object_decoder_answers_once() {
    let data = sample(800);
    let encoder = Encoder::with_defaults(&data, 16).unwrap();
    let packets = encoder.get_encoded_packets(3);
    let mut decoder = Decoder::with_defaults(800, 16).unwrap();
    let mut answers = 0;
    for packet in packets.iter() {
        if decoder.decode(packet).unwrap().is_some() {
            answers += 1;
        }
    }
    assert_eq!(answers, 1);
    assert_eq!(decoder.decode(&packets[0]), Ok(None));
    assert_eq!(decoder.decode(&[1, 2, 3]), Ok(None));
}

#[test]
fn object_parameters_are_refused() {
    assert_eq!(Decoder::with_defaults(0, 64).err(), Some(Error::Config));
    assert_eq!(Decoder::with_defaults(100, 0).err(), Some(Error::Config));
    assert_eq!(Decoder::with_defaults(100, 12).err(), Some(Error::Config));
    assert_eq!(Encoder::with_defaults(&[], 64).err(), Some(Error::Config));
    assert_eq!(Encoder::with_defaults(&sample(10), 63).err(), Some(Error::Config));
    let too_long: u64 = 256 * 2701 * 8 + 1;
    assert_eq!(Decoder::with_defaults(too_long, 8).err(), Some(Error::Config));
    assert!(Decoder::with_defaults(too_long - 1, 8).is_ok());
}

#[test]
fn object_decoder_refuses_bad_packets() {
    let data = sample(800);
    let encoder = Encoder::with_defaults(&data, 16).unwrap();
    let packets = encoder.get_encoded_packets(0);
    let mut decoder = Decoder::with_defaults(800, 16).unwrap();
    assert_eq!(decoder.decode(&packets[0][..19]), Err(Error::MalformedPacket));
    assert_eq!(decoder.decode(&[]), Err(Error::MalformedPacket));
    let mut other = packets[0].clone();
    other[0] = 9;
    assert_eq!(decoder.decode(&other), Err(Error::BlockMismatch));
    let mut out = None;
    for packet in packets.iter() {
        out = decoder.decode(packet).unwrap();
    }
    assert_eq!(out, Some(data));
}
