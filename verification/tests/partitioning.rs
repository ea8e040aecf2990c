use raptorq::error::Error;
use raptorq::oti::{capacity, largest_size, partition, ObjectTransmissionInformation, Partition};

#[test]
fn partition_shares_out_all_symbols() {
    assert_eq!(
        partition(10, 3),
        Partition { long_size: 4, short_size: 3, long_count: 1, short_count: 2 }
    );
    assert_eq!(
        partition(12, 3),
        Partition { long_size: 4, short_size: 4, long_count: 0, short_count: 3 }
    );
    assert_eq!(
        partition(5404, 3),
        Partition { long_size: 1802, short_size: 1801, long_count: 1, short_count: 2 }
    );
    assert_eq!(
        partition(2, 5),
        Partition { long_size: 1, short_size: 0, long_count: 2, short_count: 3 }
    );
    for i in 0..200u64 {
        for j in 1..20u16 {
            let p = partition(i, j);
            assert_eq!(p.long_count * p.long_size + p.short_count * p.short_size, i);
            assert_eq!(p.long_count + p.short_count, j as u64);
            assert!(p.long_size - p.short_size <= 1);
        }
    }
}

#[test]
fn largest_sizes_within_bounds() {
    assert_eq!(largest_size(10), 10);
    assert_eq!(largest_size(11), 10);
    assert_eq!(largest_size(12), 12);
    assert_eq!(largest_size(160), 160);
    assert_eq!(largest_size(165), 160);
    assert_eq!(largest_size(2700), 2668);
    assert_eq!(largest_size(u64::MAX), 2701);
}

#[test]
fn capacities_follow_the_working_memory() {
    assert_eq!(capacity(64, 1), 2701);
    assert_eq!(capacity(65528, 1), 160);
    assert_eq!(capacity(65528, 2), 305);
    assert_eq!(capacity(65535, 1), 160);
    assert_eq!(capacity(8, 1), 2701);
    assert_eq!(capacity(65528, 1023), 2701);
}

#[test]
fn parameters_of_ten_thousand_octets() {
    let oti = ObjectTransmissionInformation::with_defaults(10_000, 64).unwrap();
    assert_eq!(
        oti,
        ObjectTransmissionInformation {
            transfer_length: 10_000,
            symbol_size: 64,
            total_symbols: 157,
            source_blocks: 1,
            sub_blocks: 1,
            alignment: 8,
        }
    );
    assert_eq!(oti.block_bounds(), vec![0u64, 10_000]);
}

#[test]
fn parameters_of_an_object_of_three_blocks() {
    let oti = ObjectTransmissionInformation::with_defaults(43_232, 8).unwrap();
    assert_eq!(oti.total_symbols, 5404);
    assert_eq!(oti.source_blocks, 3);
    assert_eq!(oti.sub_blocks, 1);
    assert_eq!(oti.block_bounds(), vec![0u64, 14_416, 28_824, 43_232]);
    let short = ObjectTransmissionInformation::with_defaults(43_229, 8).unwrap();
    assert_eq!(short.block_bounds(), vec![0u64, 14_416, 28_824, 43_229]);
}

#[test]
fn large_symbols_are_cut_into_sub_blocks() {
    let oti = ObjectTransmissionInformation::with_defaults(65528 * 300, 65528).unwrap();
    assert_eq!(oti.total_symbols, 300);
    assert_eq!(oti.source_blocks, 1);
    assert_eq!(oti.sub_blocks, 2);
    let one = ObjectTransmissionInformation::with_defaults(65528 * 160, 65528).unwrap();
    assert_eq!(one.sub_blocks, 1);
}

#[test]
fn parameters_are_the_same_on_both_sides() {
    for (f, t) in [(1u64, 8u16), (10_000, 64), (123_456, 1024), (5_000_000, 1400 / 8 * 8)] {
        let a = ObjectTransmissionInformation::with_defaults(f, t).unwrap();
        let b = ObjectTransmissionInformation::with_defaults(f, t).unwrap();
        assert_eq!(a, b);
        let bounds = a.block_bounds();
        assert_eq!(bounds.len(), a.source_blocks as usize + 1);
        assert_eq!(bounds[0], 0);
        assert_eq!(*bounds.last().unwrap(), f);
    }
}

#[test]
fn unacceptable_parameters_are_refused() {
    assert_eq!(ObjectTransmissionInformation::with_defaults(0, 8), Err(Error::Config));
    assert_eq!(ObjectTransmissionInformation::with_defaults(8, 0), Err(Error::Config));
    assert_eq!(ObjectTransmissionInformation::with_defaults(8, 9), Err(Error::Config));
    assert_eq!(ObjectTransmissionInformation::with_defaults(8, 65535), Err(Error::Config));
    let most: u64 = 256 * 2701 * 16;
    assert!(ObjectTransmissionInformation::with_defaults(most, 16).is_ok());
    assert_eq!(ObjectTransmissionInformation::with_defaults(most + 1, 16), Err(Error::Config));
    assert_eq!(ObjectTransmissionInformation::with_defaults(u64::MAX, 65528), Err(Error::Config));
}
