use bcl_demux::bcl_iterator::{BclIterator, CycleRecord};
use bcl_demux::demux::{demultiplex_cluster, demultiplex_tile, emit_cluster, fold_call, OutputRecord};
use bcl_demux::layout::ReadLayout;
use bcl_demux::run_info::{Read, Reads};
use bcl_demux::sample_sheet::{SampleSheet, SheetEntry};
use bcl_demux::text::format_record;

fn read(num_cycles: u32, number: u32, flag: &str) -> Read {
    Read::new(num_cycles, number, flag.to_string())
}

fn entry(r1: &str, r2: &str, name: &str) -> SheetEntry {
    SheetEntry { r1_barcode: r1.to_string(), r2_barcode: r2.to_string(), name: name.to_string() }
}

fn cycle_file(declared: u32, calls: &[u8]) -> Vec<u8> {
    let mut file = declared.to_le_bytes().to_vec();
    file.extend_from_slice(calls);
    file
}

fn call(base: char, quality: u8) -> u8 {
    let code = match base {
        'A' => 0,
        'C' => 1,
        'G' => 2,
        'T' => 3,
        _ => panic!("not a base"),
    };
    (quality << 2) | code
}

fn paired_reads() -> Reads {
    Reads { read: vec![read(2, 1, "N"), read(8, 2, "Y"), read(8, 3, "Y"), read(2, 4, "N")] }
}

fn cluster(r1: &str, i1: &str, i2: &str, r2: &str) -> Vec<CycleRecord> {
    let mut records = Vec::new();
    for (ordinal, (text, indexed)) in [(r1, false), (i1, true), (i2, true), (r2, false)].iter().enumerate() {
        for c in text.chars() {
            records.push((c, 30u8, ordinal as u8, *indexed));
        }
    }
    records
}

fn texts(out: &[OutputRecord]) -> Vec<(usize, usize, String)> {
    out.iter().map(|r| (r.sample_id, r.read_ordinal, r.text.clone())).collect()
}

#[test]
fn record_text_has_four_lines() {
    let text = format_record(0, &vec!['C', 'A'], &vec!['"', '!']);
    assert_eq!(text, "@0\nCA\n+\n\"!\n");
    let text = format_record(12345, &vec![], &vec![]);
    assert_eq!(text, "@12345\n\n+\n\n");
    let text = format_record(10, &vec!['N'], &vec!['!']);
    assert_eq!(text, "@10\nN\n+\n!\n");
}

#[test]
fn index_code_shifts_in_two_bits_for_each_call() {
    assert_eq!(fold_call(0, 'A'), 0);
    assert_eq!(fold_call(0, 'C'), 1);
    assert_eq!(fold_call(1, 'G'), 0b0110);
    assert_eq!(fold_call(0b0110, 'T'), 0b011011);
    assert_eq!(fold_call(0b0110, 'N'), 0b011000);
    assert_eq!(fold_call(0xFFFF, 'A'), 0xFFFC);
    assert_eq!(fold_call(0x4001, 'C'), 0x0005);
}

#[test]
fn tile_of_one_cluster_and_one_read() {
    let reads = Reads { read: vec![read(2, 1, "N")] };
    let layout = ReadLayout::build(&reads).unwrap();
    let sheet = SampleSheet::build(&vec![]).unwrap();
    let files = vec![cycle_file(1, &[0b0000_0100]), cycle_file(1, &[0b0000_0000])];
    let mut decoder = BclIterator::new(layout.total_cycles, files, &reads).unwrap();
    let out = demultiplex_tile(&mut decoder, &layout, &sheet);
    assert_eq!(out.len(), 1);
    assert_eq!(out[0].sample_id, 0);
    assert_eq!(out[0].read_ordinal, 0);
    let quality: String = vec![(1u8 + 33) as char, (0u8 + 33) as char].into_iter().collect();
    assert_eq!(out[0].text, format!("@0\nAN\n+\n{}\n", quality));
}

#[test]
fn tile_of_one_cluster_with_calls_c_and_a() {
    let reads = Reads { read: vec![read(2, 1, "N")] };
    let layout = ReadLayout::build(&reads).unwrap();
    let sheet = SampleSheet::build(&vec![]).unwrap();
    let files = vec![cycle_file(1, &[call('C', 1)]), cycle_file(1, &[call('A', 2)])];
    let mut decoder = BclIterator::new(2, files, &reads).unwrap();
    let out = demultiplex_tile(&mut decoder, &layout, &sheet);
    assert_eq!(texts(&out), vec![(0, 0, "@0\nCA\n+\n\"#\n".to_string())]);
}

#[test]
fn matching_index_reads_give_the_sample() {
    let layout = ReadLayout::build(&paired_reads()).unwrap();
    let sheet = SampleSheet::build(&vec![entry("AAAAAAAA", "CCCCCCCC", "S1")]).unwrap();
    let out = demultiplex_cluster(&cluster("AC", "AAAAAAAA", "CCCCCCCC", "GT"), &layout, &sheet);
    assert_eq!(
        texts(&out),
        vec![
            (1, 0, "@1\nAC\n+\n??\n".to_string()),
            (1, 1, "@1\nAAAAAAAA\n+\n????????\n".to_string()),
            (1, 2, "@1\nCCCCCCCC\n+\n????????\n".to_string()),
            (1, 3, "@1\nGT\n+\n??\n".to_string()),
        ]
    );
}

#[test]
fn one_substitution_in_an_index_read_still_gives_the_sample() {
    let layout = ReadLayout::build(&paired_reads()).unwrap();
    let sheet = SampleSheet::build(&vec![entry("AAAAAAAA", "CCCCCCCC", "S1")]).unwrap();
    let out = demultiplex_cluster(&cluster("AC", "AAATAAAA", "CCCCCCCC", "GT"), &layout, &sheet);
    assert!(out.iter().all(|r| r.sample_id == 1));
    let out = demultiplex_cluster(&cluster("AC", "AAAAAAAA", "CCCCCCCG", "GT"), &layout, &sheet);
    assert!(out.iter().all(|r| r.sample_id == 1));
    let out = demultiplex_cluster(&cluster("AC", "AAATAAAT", "CCCCCCCC", "GT"), &layout, &sheet);
    assert!(out.iter().all(|r| r.sample_id == 0));
}

#[test]
fn no_call_in_an_index_read_counts_as_a() {
    let layout = ReadLayout::build(&paired_reads()).unwrap();
    let sheet = SampleSheet::build(&vec![entry("AAAAAAAA", "CCCCCCCC", "S1")]).unwrap();
    let out = demultiplex_cluster(&cluster("AC", "AANAAAAA", "CCCCCCCC", "GT"), &layout, &sheet);
    assert!(out.iter().all(|r| r.sample_id == 1));
    assert_eq!(out[1].text, "@1\nAANAAAAA\n+\n????????\n");
}

#[test]
fn index_reads_that_disagree_give_unknown() {
    let layout = ReadLayout::build(&paired_reads()).unwrap();
    let sheet = SampleSheet::build(&vec![
        entry("AAAAAAAA", "CCCCCCCC", "S1"),
        entry("GGGGGGGG", "TTTTTTTT", "S2"),
    ]).unwrap();
    let out = demultiplex_cluster(&cluster("AC", "AAAAAAAA", "TTTTTTTT", "GT"), &layout, &sheet);
    assert_eq!(out.len(), 4);
    assert!(out.iter().all(|r| r.sample_id == 0));
    assert_eq!(out[0].text, "@0\nAC\n+\n??\n");
    let out = demultiplex_cluster(&cluster("AC", "GGGGGGGG", "TTTTTTTT", "GT"), &layout, &sheet);
    assert!(out.iter().all(|r| r.sample_id == 2));
    let out = demultiplex_cluster(&cluster("AC", "AAAAAAAA", "ACGTACGT", "GT"), &layout, &sheet);
    assert!(out.iter().all(|r| r.sample_id == 0));
    let out = demultiplex_cluster(&cluster("AC", "ACGTACGT", "GTGTGTGT", "GT"), &layout, &sheet);
    assert!(out.iter().all(|r| r.sample_id == 0));
}

#[test]
fn index_reads_are_taken_from_the_layout() {
    let reads = Reads { read: vec![read(8, 1, "Y"), read(2, 2, "N"), read(8, 3, "Y")] };
    let layout = ReadLayout::build(&reads).unwrap();
    let sheet = SampleSheet::build(&vec![entry("ACGTACGT", "TTTTGGGG", "S1")]).unwrap();
    let mut records: Vec<CycleRecord> = Vec::new();
    for c in "ACGTACGT".chars() {
        records.push((c, 10, 0, true));
    }
    for c in "GG".chars() {
        records.push((c, 10, 1, false));
    }
    for c in "TTTTGGGG".chars() {
        records.push((c, 10, 2, true));
    }
    let out = demultiplex_cluster(&records, &layout, &sheet);
    assert_eq!(out.len(), 3);
    assert!(out.iter().all(|r| r.sample_id == 1));
    assert_eq!(out[1].text, "@1\nGG\n+\n++\n");
}

#[test]
fn emit_cluster_appends_to_what_is_there() {
    let reads = Reads { read: vec![read(1, 1, "N")] };
    let layout = ReadLayout::build(&reads).unwrap();
    let sheet = SampleSheet::build(&vec![]).unwrap();
    let mut out = vec![OutputRecord { sample_id: 9, read_ordinal: 9, text: "kept".to_string() }];
    emit_cluster(&vec![('G', 0, 0, false)], &layout, &sheet, &mut out);
    assert_eq!(texts(&out), vec![(9, 9, "kept".to_string()), (0, 0, "@0\nG\n+\n!\n".to_string())]);
}

#[test]
fn tile_output_is_in_cluster_order_and_ends_with_the_shortest_file() {
    let reads = paired_reads();
    let layout = ReadLayout::build(&reads).unwrap();
    let sheet = SampleSheet::build(&vec![
        entry("AAAAAAAA", "CCCCCCCC", "S1"),
        entry("GGGGGGGG", "TTTTTTTT", "S2"),
    ]).unwrap();
    let clusters = ["ACAAAAAAAACCCCCCCCGT", "TTGGGGGGGGTTTTTTTTAA", "CCAAAAAAAATTTTTTTTCC"];
    let mut files: Vec<Vec<u8>> = Vec::new();
    for cycle in 0..20 {
        let calls: Vec<u8> = clusters.iter().map(|c| call(c.chars().nth(cycle).unwrap(), 2)).collect();
        let kept = if cycle == 7 { 2 } else { 3 };
        files.push(cycle_file(3, &calls[..kept]));
    }
    let mut decoder = BclIterator::new(20, files, &reads).unwrap();
    let out = demultiplex_tile(&mut decoder, &layout, &sheet);
    assert_eq!(out.len(), 8);
    let samples: Vec<usize> = out.iter().map(|r| r.sample_id).collect();
    assert_eq!(samples, vec![1, 1, 1, 1, 2, 2, 2, 2]);
    let ordinals: Vec<usize> = out.iter().map(|r| r.read_ordinal).collect();
    assert_eq!(ordinals, vec![0, 1, 2, 3, 0, 1, 2, 3]);
    assert_eq!(out[0].text, "@1\nAC\n+\n##\n");
    assert_eq!(out[7].text, "@2\nAA\n+\n##\n");
    assert_eq!(decoder.position, 2);
    assert!(demultiplex_tile(&mut decoder, &layout, &sheet).is_empty());
}

#[test]
fn forty_clusters_come_out_of_a_tile_that_declares_a_hundred() {
    let reads = Reads { read: vec![read(2, 1, "N")] };
    let layout = ReadLayout::build(&reads).unwrap();
    let sheet = SampleSheet::build(&vec![]).unwrap();
    let files = vec![cycle_file(100, &[5u8; 100]), cycle_file(100, &[6u8; 40])];
    let mut decoder = BclIterator::new(2, files, &reads).unwrap();
    let out = demultiplex_tile(&mut decoder, &layout, &sheet);
    assert_eq!(out.len(), 40);
    assert!(out.iter().all(|r| r.text == "@0\nCG\n+\n\"\"\n"));
}
