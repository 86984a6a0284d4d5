use bcl_demux::layout::{ConfigError, ReadLayout};
use bcl_demux::run_info::{Read, Reads};

fn read(num_cycles: u32, number: u32, flag: &str) -> Read {
    Read::new(num_cycles, number, flag.to_string())
}

#[test]
fn mask_round_trip_for_every_ordinal_number_and_flag() {
    for ordinal in 0u8..=7 {
        for number in 0u32..=7 {
            for flag in ["Y", "N"] {
                let r = read(5, number, flag);
                let mask = r.create_bit_mask_representation(ordinal);
                let (o, n, f) = Read::decode_bit_mask_representation(mask);
                assert_eq!(o, ordinal);
                assert_eq!(n as u32, number);
                assert_eq!(f, flag);
            }
        }
    }
}

#[test]
fn mask_has_the_documented_bit_layout() {
    let r = read(1, 5, "Y");
    assert_eq!(r.create_bit_mask_representation(3), 0b0011_1011);
    let r = read(1, 2, "N");
    assert_eq!(r.create_bit_mask_representation(7), 0b0111_0100);
    let r = read(1, 0, "N");
    assert_eq!(r.create_bit_mask_representation(0), 0);
}

#[test]
fn flag_other_than_y_is_not_indexed() {
    assert!(read(1, 1, "Y").indexed());
    assert!(!read(1, 1, "N").indexed());
    assert!(!read(1, 1, "y").indexed());
    assert!(!read(1, 1, "").indexed());
    assert!(!read(1, 1, "YY").indexed());
}

#[test]
fn total_cycles_is_the_sum_of_cycle_counts() {
    let reads = Reads { read: vec![read(151, 1, "N"), read(8, 2, "Y"), read(8, 3, "Y"), read(151, 4, "N")] };
    assert_eq!(reads.calculate_total_cycles(), 318);
    let map = reads.create_memory_map_decode();
    assert_eq!(map.len(), 318);
    let empty = Reads { read: vec![] };
    assert_eq!(empty.calculate_total_cycles(), 0);
    assert_eq!(empty.create_memory_map_decode().len(), 0);
}

#[test]
fn memory_map_repeats_each_reads_mask_for_its_cycles() {
    let reads = Reads { read: vec![read(2, 1, "N"), read(0, 2, "N"), read(3, 3, "Y")] };
    let map = reads.create_memory_map_decode();
    let first = 0b0000_0010u8;
    let third = 0b0010_0111u8;
    assert_eq!(map, vec![first, first, third, third, third]);
}

#[test]
fn layout_of_a_paired_run_with_two_index_reads() {
    let reads = Reads { read: vec![read(3, 1, "N"), read(8, 2, "Y"), read(8, 3, "Y"), read(3, 4, "N")] };
    let layout = ReadLayout::build(&reads).unwrap();
    assert_eq!(layout.total_cycles, 22);
    assert_eq!(layout.cycle_descriptor.len(), 22);
    assert_eq!(layout.read_count, 4);
    assert_eq!(layout.first_index, Some(1));
    assert_eq!(layout.second_index, Some(2));
}

#[test]
fn index_reads_are_found_by_flag_and_order() {
    let reads = Reads { read: vec![read(8, 1, "Y"), read(3, 2, "N"), read(3, 3, "N"), read(8, 4, "Y"), read(8, 5, "Y")] };
    let layout = ReadLayout::build(&reads).unwrap();
    assert_eq!(layout.first_index, Some(0));
    assert_eq!(layout.second_index, Some(3));
    let single = Reads { read: vec![read(3, 1, "N"), read(8, 2, "Y")] };
    let layout = ReadLayout::build(&single).unwrap();
    assert_eq!(layout.first_index, Some(1));
    assert_eq!(layout.second_index, None);
    let none = Reads { read: vec![read(3, 1, "N")] };
    let layout = ReadLayout::build(&none).unwrap();
    assert_eq!(layout.first_index, None);
    assert_eq!(layout.second_index, None);
}

#[test]
fn eight_reads_fit_and_nine_do_not() {
    let eight = Reads { read: (0..8).map(|i| read(1, i, "N")).collect() };
    let layout = ReadLayout::build(&eight).unwrap();
    assert_eq!(layout.total_cycles, 8);
    let nine = Reads { read: (0..9).map(|i| read(1, i % 8, "N")).collect() };
    assert_eq!(ReadLayout::build(&nine).unwrap_err(), ConfigError::TooManyReads);
}

#[test]
fn declared_number_above_seven_is_refused() {
    let reads = Reads { read: vec![read(1, 7, "N"), read(1, 8, "N")] };
    assert_eq!(ReadLayout::build(&reads).unwrap_err(), ConfigError::NumberOutOfRange);
    let zero_cycles = Reads { read: vec![read(0, 9, "N")] };
    assert_eq!(ReadLayout::build(&zero_cycles).unwrap_err(), ConfigError::NumberOutOfRange);
}

#[test]
fn too_many_reads_is_reported_before_a_bad_number() {
    let reads = Reads { read: (0..9).map(|_| read(1, 9, "N")).collect() };
    assert_eq!(ReadLayout::build(&reads).unwrap_err(), ConfigError::TooManyReads);
}

#[test]
fn cycle_counts_beyond_u32_are_refused() {
    let reads = Reads { read: vec![read(u32::MAX, 1, "N"), read(1, 2, "N")] };
    assert_eq!(ReadLayout::build(&reads).unwrap_err(), ConfigError::TooManyCycles);
}
