use bcl_demux::paths::{
    cycle_dir, cycle_file_path, find_char, last_component_start, parse_u32_between, sink_file_name,
    tile_number_of,
};
use bcl_demux::text::{push_chars, push_decimal};

#[test]
fn decimal_text_of_numbers() {
    for (n, expected) in [(0usize, "0"), (7, "7"), (10, "10"), (99, "99"), (100, "100"), (65535, "65535"), (usize::MAX, &usize::MAX.to_string())] {
        let mut text = String::from("x");
        push_decimal(&mut text, n);
        assert_eq!(text, format!("x{}", expected));
    }
}

#[test]
fn chars_are_appended_in_order() {
    let mut text = String::from("ab");
    push_chars(&mut text, &vec!['c', 'd', '\n']);
    assert_eq!(text, "abcd\n");
}

#[test]
fn tile_number_is_the_third_field_of_the_file_name() {
    assert_eq!(tile_number_of("s_1_1101.bcl"), Some(1101));
    assert_eq!(tile_number_of("/run/Data/Intensities/BaseCalls/L001/C1.1/s_1_2119.bcl"), Some(2119));
    assert_eq!(tile_number_of("a_b/s_2_7.bcl.gz"), Some(7));
    assert_eq!(tile_number_of("s_1_1101_extra.bcl"), Some(1101));
    assert_eq!(tile_number_of("s_1_0012"), Some(12));
    assert_eq!(tile_number_of("s_1_+12.bcl"), Some(12));
    assert_eq!(tile_number_of("s_1_4294967295.bcl"), Some(u32::MAX));
}

#[test]
fn names_without_a_tile_number_give_nothing() {
    assert_eq!(tile_number_of(""), None);
    assert_eq!(tile_number_of("s_1.bcl"), None);
    assert_eq!(tile_number_of("s_1_.bcl"), None);
    assert_eq!(tile_number_of("s_1_x1.bcl"), None);
    assert_eq!(tile_number_of("s_1_-1.bcl"), None);
    assert_eq!(tile_number_of("s_1_+.bcl"), None);
    assert_eq!(tile_number_of("s_1_++1.bcl"), None);
    assert_eq!(tile_number_of("s_1_4294967296.bcl"), None);
    assert_eq!(tile_number_of("s_1_99999999999999999999999.bcl"), None);
    assert_eq!(tile_number_of("s_1.x_1101"), None);
    assert_eq!(tile_number_of("s_1_1101/"), None);
    assert_eq!(tile_number_of("s_1_1101/other.bcl"), None);
}

#[test]
fn find_and_component_start() {
    assert_eq!(find_char("a.b.c", '.', 0), 1);
    assert_eq!(find_char("a.b.c", '.', 2), 3);
    assert_eq!(find_char("a.b.c", '.', 4), 5);
    assert_eq!(find_char("a.b.c", '.', 9), 5);
    assert_eq!(find_char("", '.', 0), 0);
    assert_eq!(last_component_start("a/b/c", '/'), 4);
    assert_eq!(last_component_start("abc", '/'), 0);
    assert_eq!(last_component_start("abc/", '/'), 4);
}

#[test]
fn numbers_are_read_between_positions() {
    assert_eq!(parse_u32_between("ab123cd", 2, 5), Some(123));
    assert_eq!(parse_u32_between("ab123cd", 2, 6), None);
    assert_eq!(parse_u32_between("ab123cd", 2, 2), None);
    assert_eq!(parse_u32_between("+0", 0, 2), Some(0));
    assert_eq!(parse_u32_between("000000000000000000042", 0, 21), Some(42));
}

#[test]
fn cycle_files_lie_below_the_run_directory() {
    assert_eq!(cycle_dir("/data/run", 1, 1), "/data/run/Data/Intensities/BaseCalls/L001/C1.1");
    assert_eq!(
        cycle_file_path("/data/run", 1, 1101, 25),
        "/data/run/Data/Intensities/BaseCalls/L001/C25.1/s_1_1101.bcl"
    );
    assert_eq!(
        cycle_file_path("run", 12, 2119, 318),
        "run/Data/Intensities/BaseCalls/L012/C318.1/s_12_2119.bcl"
    );
    assert_eq!(cycle_dir("", 123, 0), "/Data/Intensities/BaseCalls/L123/C0.1");
}

#[test]
fn sink_files_are_named_by_sample_and_read() {
    assert_eq!(sink_file_name("Unknown", 0), "out/Unknown_L001_R0_001.fastq.gz");
    assert_eq!(sink_file_name("E-coli_1ng_input-rep01", 3), "out/E-coli_1ng_input-rep01_L001_R3_001.fastq.gz");
}
