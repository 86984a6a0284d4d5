use bcl_demux::barcode::{is_base_char, is_valid_barcode, substitute_code};
use bcl_demux::sample_sheet::{SampleSheet, SheetEntry, SheetError};

fn entry(r1: &str, r2: &str, name: &str) -> SheetEntry {
    SheetEntry { r1_barcode: r1.to_string(), r2_barcode: r2.to_string(), name: name.to_string() }
}

fn code(barcode: &str) -> u16 {
    SampleSheet::index_string_to_vec(barcode) as u16
}

#[test]
fn bases_have_two_bit_values() {
    assert_eq!(SampleSheet::ascii_to_index('A'), 0);
    assert_eq!(SampleSheet::ascii_to_index('C'), 1);
    assert_eq!(SampleSheet::ascii_to_index('G'), 2);
    assert_eq!(SampleSheet::ascii_to_index('T'), 3);
    assert!(is_base_char('G'));
    assert!(!is_base_char('N'));
    assert!(!is_base_char('a'));
}

#[test]
fn barcode_code_reads_bases_as_base_four_digits() {
    assert_eq!(SampleSheet::index_string_to_vec(""), 0);
    assert_eq!(SampleSheet::index_string_to_vec("AAAAAAAA"), 0);
    assert_eq!(SampleSheet::index_string_to_vec("AAAAAAAC"), 1);
    assert_eq!(SampleSheet::index_string_to_vec("CAAAAAAA"), 1 << 14);
    assert_eq!(SampleSheet::index_string_to_vec("CCCCCCCC"), 0x5555);
    assert_eq!(SampleSheet::index_string_to_vec("TTTTTTTT"), 0xFFFF);
    assert_eq!(SampleSheet::index_string_to_vec("ACGT"), 0b00_01_10_11);
    assert_eq!(SampleSheet::index_string_to_vec("TTTTTTTTTTTTTTTT"), 0xFFFF_FFFF);
}

#[test]
fn valid_barcode_is_eight_bases() {
    assert!(is_valid_barcode("ACGTACGT"));
    assert!(!is_valid_barcode("ACGTACG"));
    assert!(!is_valid_barcode("ACGTACGTA"));
    assert!(!is_valid_barcode("ACGTNCGT"));
    assert!(!is_valid_barcode("acgtacgt"));
    assert!(!is_valid_barcode(""));
}

#[test]
fn substitution_replaces_one_base() {
    let c = code("ACGTACGT") as u32;
    assert_eq!(substitute_code(c, 0, 0), code("ACGTACGA") as u32);
    assert_eq!(substitute_code(c, 7, 3), code("TCGTACGT") as u32);
    assert_eq!(substitute_code(c, 3, 2), code("ACGTGCGT") as u32);
    assert_eq!(substitute_code(c, 2, 1), c);
}

#[test]
fn exact_match_and_single_substitution_resolve_to_the_sample() {
    let sheet = SampleSheet::build(&vec![entry("AAAAAAAA", "CCCCCCCC", "S1")]).unwrap();
    assert_eq!(sheet.names, vec!["Unknown".to_string(), "S1".to_string()]);
    assert_eq!(sheet.get_r1_sample_idx(code("AAAAAAAA")), 1);
    assert_eq!(sheet.get_r2_sample_idx(code("CCCCCCCC")), 1);
    assert_eq!(sheet.get_r1_sample_idx(code("AAAGAAAA")), 1);
    assert_eq!(sheet.get_r1_sample_idx(code("TAAAAAAA")), 1);
    assert_eq!(sheet.get_r1_sample_idx(code("AAAAAAAT")), 1);
    assert_eq!(sheet.get_r2_sample_idx(code("CCCCACCC")), 1);
    assert_eq!(sheet.get_r1_sample_idx(code("AAAGAAAC")), 0);
    assert_eq!(sheet.get_r2_sample_idx(code("AAAAAAAA")), 0);
    assert_eq!(sheet.get_r1_sample_idx(code("CCCCCCCC")), 0);
}

#[test]
fn every_neighbor_of_a_barcode_resolves_and_nothing_else() {
    let sheet = SampleSheet::build(&vec![entry("ACGTACGT", "TTTTTTTT", "S1")]).unwrap();
    let target = code("ACGTACGT") as u32;
    let mut hits = 0;
    for c in 0u32..65536 {
        let mut differing = 0;
        for pos in 0..8 {
            if (c >> (2 * pos)) & 3 != (target >> (2 * pos)) & 3 {
                differing += 1;
            }
        }
        let expected = if differing <= 1 { 1 } else { 0 };
        assert_eq!(sheet.get_r1_sample_idx(c as u16), expected);
        hits += expected as u32;
    }
    assert_eq!(hits, 1 + 8 * 3);
}

#[test]
fn empty_sheet_resolves_everything_to_unknown() {
    let sheet = SampleSheet::build(&vec![]).unwrap();
    assert_eq!(sheet.names, vec!["Unknown".to_string()]);
    assert_eq!(sheet.r1_indexes.len(), 65536);
    assert_eq!(sheet.r2_indexes.len(), 65536);
    assert!(sheet.r1_indexes.iter().all(|&id| id == 0));
    assert!(sheet.r2_indexes.iter().all(|&id| id == 0));
}

#[test]
fn later_row_wins_where_neighborhoods_collide() {
    let sheet = SampleSheet::build(&vec![
        entry("AAAAAAAA", "CCCCCCCC", "S1"),
        entry("AAAAAACC", "GGGGGGGG", "S2"),
    ]).unwrap();
    assert_eq!(sheet.get_r1_sample_idx(code("AAAAAAAA")), 1);
    assert_eq!(sheet.get_r1_sample_idx(code("AAAAAACC")), 2);
    assert_eq!(sheet.get_r1_sample_idx(code("AAAAAAAC")), 2);
    assert_eq!(sheet.get_r1_sample_idx(code("AAAAAACA")), 2);
    assert_eq!(sheet.get_r1_sample_idx(code("AAAAAAAG")), 1);
}

#[test]
fn repeated_barcode_resolves_to_the_last_row_that_has_it() {
    let sheet = SampleSheet::build(&vec![
        entry("AAGAGGCA", "TCGACTAG", "first"),
        entry("GCTCATGA", "CGTCTAAT", "second"),
        entry("AAGAGGCA", "CCTAGAGT", "third"),
    ]).unwrap();
    assert_eq!(sheet.get_r1_sample_idx(code("AAGAGGCA")), 3);
    assert_eq!(sheet.get_r2_sample_idx(code("TCGACTAG")), 1);
    assert_eq!(sheet.get_r2_sample_idx(code("CCTAGAGT")), 3);
    assert_eq!(sheet.get_r1_sample_idx(code("GCTCATGA")), 2);
}

#[test]
fn barcode_one_substitution_from_a_later_one_is_taken_over() {
    let sheet = SampleSheet::build(&vec![
        entry("AAAAAAAA", "CCCCCCCC", "S1"),
        entry("AAAAAAAC", "GGGGGGGG", "S2"),
    ]).unwrap();
    assert_eq!(sheet.get_r1_sample_idx(code("AAAAAAAA")), 2);
    assert_eq!(sheet.get_r1_sample_idx(code("AAAAAAAC")), 2);
    assert_eq!(sheet.get_r1_sample_idx(code("CAAAAAAA")), 1);
}

#[test]
fn invalid_barcode_names_the_first_bad_row() {
    let bad_char = vec![entry("AAAAAAAA", "CCCCCCCC", "S1"), entry("AAAANAAA", "CCCCCCCC", "S2")];
    assert_eq!(SampleSheet::build(&bad_char).unwrap_err(), SheetError::InvalidBarcode(1));
    let short = vec![entry("AAAAAAA", "CCCCCCCC", "S1")];
    assert_eq!(SampleSheet::build(&short).unwrap_err(), SheetError::InvalidBarcode(0));
    let long_r2 = vec![entry("AAAAAAAA", "CCCCCCCCC", "S1")];
    assert_eq!(SampleSheet::build(&long_r2).unwrap_err(), SheetError::InvalidBarcode(0));
    let lower = vec![entry("AAAAAAAA", "cccccccc", "S1")];
    assert_eq!(SampleSheet::build(&lower).unwrap_err(), SheetError::InvalidBarcode(0));
}

#[test]
fn sheet_with_as_many_rows_as_codes_is_refused() {
    let entries: Vec<SheetEntry> = (0..65536).map(|_| entry("AAAAAAAA", "CCCCCCCC", "S")).collect();
    assert_eq!(SampleSheet::build(&entries).unwrap_err(), SheetError::TooManySamples);
}

#[test]
fn rows_need_three_fields() {
    let rows = vec![
        vec!["AAAAAAAA".to_string(), "CCCCCCCC".to_string(), "S1".to_string()],
        vec!["AAAAAAAA".to_string(), "CCCCCCCC".to_string()],
    ];
    assert_eq!(SampleSheet::from_rows(&rows).unwrap_err(), SheetError::MissingField(1));
    let extra = vec![vec!["AAAAAAAA".to_string(), "CCCCCCCC".to_string(), "S1".to_string(), "x".to_string()]];
    let sheet = SampleSheet::from_rows(&extra).unwrap();
    assert_eq!(sheet.names[1], "S1");
}

#[test]
fn missing_field_is_reported_before_an_invalid_barcode() {
    let rows = vec![
        vec!["AAAANAAA".to_string(), "CCCCCCCC".to_string(), "S1".to_string()],
        vec!["AAAAAAAA".to_string()],
    ];
    assert_eq!(SampleSheet::from_rows(&rows).unwrap_err(), SheetError::MissingField(1));
}

#[test]
fn sheet_text_is_read_as_comma_separated_rows() {
    let text = "AAGAGGCA,TCGACTAG,E-coli_1ng_input-rep01\nGCTCATGA,CGTCTAAT,E-coli_1ng_input-rep02\nAGGCAGAA,GCGTAAGA,E-coli_1ng_input-rep03\n";
    let sheet = SampleSheet::parse(text).unwrap();
    assert_eq!(sheet.names.len(), 4);
    assert_eq!(sheet.names[0], "Unknown");
    assert_eq!(sheet.names[1], "E-coli_1ng_input-rep01");
    assert_eq!(sheet.names[3], "E-coli_1ng_input-rep03");
    assert_eq!(sheet.get_r1_sample_idx(code("AAGAGGCA")), 1);
    assert_eq!(sheet.get_r2_sample_idx(code("CGTCTAAT")), 2);
    assert_eq!(sheet.get_r1_sample_idx(code("AGGCAGAT")), 3);
    assert_eq!(sheet.get_r1_sample_idx(code("TTTTTTTT")), 0);
}

#[test]
fn sheet_text_through_from_str() {
    let sheet: SampleSheet = "AAAAAAAA,CCCCCCCC,S1\n".parse().unwrap();
    assert_eq!(sheet.names, vec!["Unknown".to_string(), "S1".to_string()]);
    assert_eq!(sheet.get_r1_sample_idx(0), 1);
}

#[test]
fn first_line_is_a_row_not_a_header() {
    let sheet = SampleSheet::parse("TTTTTTTT,GGGGGGGG,only\n").unwrap();
    assert_eq!(sheet.names.len(), 2);
    assert_eq!(sheet.get_r1_sample_idx(0xFFFF), 1);
}

#[test]
fn quoted_name_keeps_its_comma() {
    let sheet = SampleSheet::parse("AAAAAAAA,CCCCCCCC,\"a,b\"\n").unwrap();
    assert_eq!(sheet.names[1], "a,b");
}

#[test]
fn empty_text_is_an_empty_sheet() {
    let sheet = SampleSheet::parse("").unwrap();
    assert_eq!(sheet.names, vec!["Unknown".to_string()]);
}

#[test]
fn rows_of_unequal_length_are_malformed() {
    let err = SampleSheet::parse("AAAAAAAA,CCCCCCCC,S1\nAAAAAAAA,CCCCCCCC\n").unwrap_err();
    assert_eq!(err, SheetError::Malformed);
}

#[test]
fn text_with_two_fields_is_missing_one() {
    let err = SampleSheet::parse("AAAAAAAA,CCCCCCCC\n").unwrap_err();
    assert_eq!(err, SheetError::MissingField(0));
}

#[test]
fn text_with_an_unknown_base_is_refused() {
    let err = SampleSheet::parse("AAAAAAAA,CCCCCCCC,S1\nAAAAAAAX,CCCCCCCC,S2\n").unwrap_err();
    assert_eq!(err, SheetError::InvalidBarcode(1));
}
