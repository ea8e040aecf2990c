use raptorq::block_decoder::SourceBlockDecoder;
use raptorq::block_encoder::SourceBlockEncoder;
use raptorq::decoder::Decoder;
use raptorq::encoder::Encoder;
use raptorq::tables::SIZE_K;

fn sample(len: usize) -> Vec<u8> {
    (0..len).map(|i| ((i * 57 + 11) % 255) as u8).collect()
}

fn unsolvable(from: usize, to: usize) -> Vec<u32> {
    let mut failed = Vec::new();
    for &k in SIZE_K[from..to].iter() {
        if SourceBlockEncoder::new(0, 1, &sample(k as usize)).is_err() {
            failed.push(k);
        }
    }
    failed
}

#[test]
fn block_sizes_up_to_five_hundred_are_solvable() {
    assert_eq!(unsolvable(40, 74), Vec::<u32>::new());
}

#[test]
fn block_sizes_up_to_seven_hundred_are_solvable() {
    assert_eq!(unsolvable(74, 96), Vec::<u32>::new());
}

#[test]
fn block_sizes_up_to_nine_hundred_are_solvable() {
    assert_eq!(unsolvable(96, 111), Vec::<u32>::new());
}

#[test]
fn block_of_a_thousand_symbols_survives_losses() {
    let data = sample(1000 * 4);
    let encoder = SourceBlockEncoder::new(9, 4, &data).unwrap();
    let mut packets = encoder.source_packets();
    assert_eq!(packets.len(), 1002);
    packets.extend(encoder.repair_packets(100, 30));
    packets.retain(|p| (p[2] as usize * 256 + p[3] as usize) % 50 != 7);
    let mut decoder = SourceBlockDecoder::new(9, 4, 4000).unwrap();
    let mut out = None;
    for packet in packets.iter() {
        if decoder.received() + 1 < 1002 {
            assert_eq!(decoder.decode(packet), Ok(None));
        } else if let Some(bytes) = decoder.decode(packet).unwrap() {
            out = Some(bytes);
            break;
        }
    }
    assert_eq!(out, Some(data));
}

#[test]
fn object_of_two_blocks_round_trips() {
    let long = sample(2702 * 8);
    let encoder = Encoder::with_defaults(&long, 8).unwrap();
    let config = encoder.transmission_information();
    assert_eq!(config.total_symbols, 2702);
    assert_eq!(config.source_blocks, 2);
    let packets = encoder.get_encoded_packets(0);
    assert_eq!(packets.len(), 2 * 1361);
    assert_eq!(packets[0][0], 0);
    assert_eq!(packets[1361][0], 1);
    let mut decoder = Decoder::with_defaults(2702 * 8, 8).unwrap();
    let mut out = None;
    for packet in packets.iter().rev() {
        assert!(out.is_none());
        out = decoder.decode(packet).unwrap();
    }
    assert_eq!(out, Some(long));
}

#[test]
fn largest_block_size_is_solvable() {
    assert_eq!(unsolvable(190, 191), Vec::<u32>::new());
}

#[test]
fn block_sizes_from_903_to_938_are_solvable() {
    assert_eq!(unsolvable(111, 115), Vec::<u32>::new());
}

#[test]
fn block_sizes_from_950_to_989_are_solvable() {
    assert_eq!(unsolvable(115, 119), Vec::<u32>::new());
}

#[test]
fn block_sizes_from_1002_to_1050_are_solvable() {
    assert_eq!(unsolvable(119, 123), Vec::<u32>::new());
}

#[test]
fn block_sizes_from_1074_to_1111_are_solvable() {
    assert_eq!(unsolvable(123, 127), Vec::<u32>::new());
}

#[test]
fn block_sizes_from_1136_to_1183_are_solvable() {
    assert_eq!(unsolvable(127, 131), Vec::<u32>::new());
}

#[test]
fn block_sizes_from_1205_to_1255_are_solvable() {
    assert_eq!(unsolvable(131, 135), Vec::<u32>::new());
}

#[test]
fn block_sizes_from_1269_to_1285_are_solvable() {
    assert_eq!(unsolvable(135, 137), Vec::<u32>::new());
}

#[test]
fn block_sizes_from_1306_to_1347_are_solvable() {
    assert_eq!(unsolvable(137, 139), Vec::<u32>::new());
}

#[test]
fn block_sizes_from_1361_to_1389_are_solvable() {
    assert_eq!(unsolvable(139, 141), Vec::<u32>::new());
}

#[test]
fn block_sizes_from_1404_to_1420_are_solvable() {
    assert_eq!(unsolvable(141, 143), Vec::<u32>::new());
}

#[test]
fn block_sizes_from_1436_to_1461_are_solvable() {
    assert_eq!(unsolvable(143, 145), Vec::<u32>::new());
}

#[test]
fn block_sizes_from_1477_to_1502_are_solvable() {
    assert_eq!(unsolvable(145, 147), Vec::<u32>::new());
}

#[test]
fn block_sizes_from_1522_to_1539_are_solvable() {
    assert_eq!(unsolvable(147, 149), Vec::<u32>::new());
}

#[test]
fn block_sizes_from_1561_to_1579_are_solvable() {
    assert_eq!(unsolvable(149, 151), Vec::<u32>::new());
}

#[test]
fn block_sizes_from_1600_to_1616_are_solvable() {
    assert_eq!(unsolvable(151, 153), Vec::<u32>::new());
}

#[test]
fn block_sizes_from_1698_to_1716_are_solvable() {
    assert_eq!(unsolvable(153, 155), Vec::<u32>::new());
}

#[test]
fn block_sizes_from_1734_to_1759_are_solvable() {
    assert_eq!(unsolvable(155, 157), Vec::<u32>::new());
}

#[test]
fn block_sizes_from_1777_to_1800_are_solvable() {
    assert_eq!(unsolvable(157, 159), Vec::<u32>::new());
}

#[test]
fn block_sizes_from_1824_to_1844_are_solvable() {
    assert_eq!(unsolvable(159, 161), Vec::<u32>::new());
}

#[test]
fn block_sizes_from_1863_to_1887_are_solvable() {
    assert_eq!(unsolvable(161, 163), Vec::<u32>::new());
}

#[test]
fn block_sizes_from_1906_to_1926_are_solvable() {
    assert_eq!(unsolvable(163, 165), Vec::<u32>::new());
}

#[test]
fn block_sizes_from_1954_to_1979_are_solvable() {
    assert_eq!(unsolvable(165, 167), Vec::<u32>::new());
}

#[test]
fn block_sizes_from_2005_to_2040_are_solvable() {
    assert_eq!(unsolvable(167, 169), Vec::<u32>::new());
}

#[test]
fn block_sizes_from_2070_to_2103_are_solvable() {
    assert_eq!(unsolvable(169, 171), Vec::<u32>::new());
}

#[test]
fn block_sizes_from_2125_to_2152_are_solvable() {
    assert_eq!(unsolvable(171, 173), Vec::<u32>::new());
}

#[test]
fn block_sizes_from_2195_to_2217_are_solvable() {
    assert_eq!(unsolvable(173, 175), Vec::<u32>::new());
}

#[test]
fn block_sizes_from_2247_to_2278_are_solvable() {
    assert_eq!(unsolvable(175, 177), Vec::<u32>::new());
}

#[test]
fn block_sizes_from_2315_to_2339_are_solvable() {
    assert_eq!(unsolvable(177, 179), Vec::<u32>::new());
}

#[test]
fn block_sizes_from_2367_to_2392_are_solvable() {
    assert_eq!(unsolvable(179, 181), Vec::<u32>::new());
}

#[test]
fn block_sizes_from_2416_to_2447_are_solvable() {
    assert_eq!(unsolvable(181, 183), Vec::<u32>::new());
}

#[test]
fn block_sizes_from_2473_to_2502_are_solvable() {
    assert_eq!(unsolvable(183, 185), Vec::<u32>::new());
}

#[test]
fn block_sizes_from_2528_to_2565_are_solvable() {
    assert_eq!(unsolvable(185, 187), Vec::<u32>::new());
}

#[test]
fn block_sizes_from_2601_to_2640_are_solvable() {
    assert_eq!(unsolvable(187, 189), Vec::<u32>::new());
}

#[test]
fn block_sizes_from_2668_to_2668_are_solvable() {
    assert_eq!(unsolvable(189, 190), Vec::<u32>::new());
}
