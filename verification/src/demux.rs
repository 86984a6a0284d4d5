//! The demultiplexer: the records of one cluster put together read by
//! read, the cluster's sample looked up from its two index reads, and one
//! output record written for each read.

use vstd::prelude::*;
use crate::bcl_iterator::{
    cluster_records, cluster_total, lemma_clusters_end_with_shortest, BclIterator, CycleRecord,
};
use crate::barcode::{
    all_bases, barcode_code, is_base, lemma_barcode_code_bound, lemma_pow4_monotone,
    lemma_pow4_values, one_substitution, valid_barcode, BARCODE_LEN,
};
use crate::layout::ReadLayout;
use crate::sample_sheet::{
    lemma_neighbor_resolves, r1_codes, r2_codes, resolve, SampleSheet, SheetRow,
};
use crate::text::{format_record, quality_char, record_text};

verus! {

/// Highest raw quality score.
pub const MAX_QUALITY: u8 = 63;

/// The two-bit value that a call adds to an index code: that of its
/// base, and zero for no call.
pub open spec fn call_value(base: char) -> int {
    if base == 'C' {
        1
    } else if base == 'G' {
        2
    } else if base == 'T' {
        3
    } else {
        0
    }
}

/// The bases of the read at `ordinal` among `records`, in cycle order.
pub open spec fn read_bases(records: Seq<CycleRecord>, ordinal: int) -> Seq<char>
    decreases records.len(),
{
    if records.len() == 0 {
        Seq::empty()
    } else if records.last().2 == ordinal {
        read_bases(records.drop_last(), ordinal).push(records.last().0)
    } else {
        read_bases(records.drop_last(), ordinal)
    }
}

/// The quality characters of the read at `ordinal` among `records`, in
/// cycle order.
pub open spec fn read_qualities(records: Seq<CycleRecord>, ordinal: int) -> Seq<char>
    decreases records.len(),
{
    if records.len() == 0 {
        Seq::empty()
    } else if records.last().2 == ordinal {
        read_qualities(records.drop_last(), ordinal).push(quality_char(records.last().1))
    } else {
        read_qualities(records.drop_last(), ordinal)
    }
}

/// The code of the index read at `ordinal` among `records`: two bits for
/// each of its calls in cycle order, of which sixteen bits are kept; zero
/// where the layout has no such read.
pub open spec fn index_code(records: Seq<CycleRecord>, ordinal: Option<u8>) -> int
    decreases records.len(),
{
    if records.len() == 0 {
        0
    } else if records.last().3 && ordinal == Some(records.last().2) {
        (index_code(records.drop_last(), ordinal) * 4 + call_value(records.last().0)) % 65536
    } else {
        index_code(records.drop_last(), ordinal)
    }
}

/// The sample of a cluster whose index reads resolve to `r1` and `r2`:
/// the one they agree on, and the unknown sample where they differ.
pub open spec fn decide(r1: int, r2: int) -> int {
    if r1 == r2 {
        r1
    } else {
        0
    }
}

/// Whether `records` can be put together for `read_count` reads: every
/// record names one of the reads and has a quality of six bits.
pub open spec fn records_fit(records: Seq<CycleRecord>, read_count: int) -> bool {
    forall|i: int|
        0 <= i < records.len() ==> (#[trigger] records[i]).2 < read_count && records[i].1
            <= MAX_QUALITY
}

/// The sample of the cluster with the records `records`.
pub open spec fn cluster_sample(
    records: Seq<CycleRecord>,
    layout: &ReadLayout,
    sheet: &SampleSheet,
) -> int {
    decide(
        sheet.r1_table()[index_code(records, layout.first_index)] as int,
        sheet.r2_table()[index_code(records, layout.second_index)] as int,
    )
}

/// One output record as plain values: sample id, read ordinal and text.
pub type RecordModel = (int, int, Seq<char>);

/// One record of output, bound for the sink of its sample and read.
#[derive(Debug)]
pub struct OutputRecord {
    pub sample_id: usize,
    pub read_ordinal: usize,
    pub text: String,
}

impl View for OutputRecord {
    type V = RecordModel;

    open spec fn view(&self) -> RecordModel {
        (self.sample_id as int, self.read_ordinal as int, self.text@)
    }
}

/// The records of `records` as plain values.
pub open spec fn record_views(records: Seq<OutputRecord>) -> Seq<RecordModel> {
    Seq::new(records.len(), |i: int| records[i]@)
}

/// The output of one cluster: for each read in order, one record with the
/// cluster's sample, the read's ordinal, and the text of the read's bases
/// and qualities.
pub open spec fn cluster_output(
    records: Seq<CycleRecord>,
    layout: &ReadLayout,
    sheet: &SampleSheet,
) -> Seq<RecordModel> {
    Seq::new(
        layout.read_count as nat,
        |r: int|
            (
                cluster_sample(records, layout, sheet),
                r,
                record_text(
                    cluster_sample(records, layout, sheet) as nat,
                    read_bases(records, r),
                    read_qualities(records, r),
                ),
            ),
    )
}

/// The output of the clusters from `from` up to `to` of a tile, cluster
/// by cluster.
pub open spec fn tile_output(
    files: Seq<Seq<u8>>,
    layout: &ReadLayout,
    sheet: &SampleSheet,
    from: int,
    to: int,
) -> Seq<RecordModel>
    decreases to - from,
{
    if to <= from {
        Seq::empty()
    } else {
        tile_output(files, layout, sheet, from, to - 1) + cluster_output(
            cluster_records(files, layout.cycle_descriptor@, to - 1),
            layout,
            sheet,
        )
    }
}

/// A cluster whose index reads resolve to the same sample belongs to it,
/// also where that is the unknown sample; one whose index reads resolve
/// to different samples belongs to the unknown sample.
pub proof fn lemma_decide(r1: int, r2: int)
    ensures
        r1 == r2 ==> decide(r1, r2) == r1,
        r1 != r2 ==> decide(r1, r2) == 0,
{
}

/// The accumulated bases, qualities and index code, one record further.
pub proof fn lemma_accumulate_step(records: Seq<CycleRecord>, i: int, ordinal: int, index: Option<u8>)
    requires
        0 <= i < records.len(),
    ensures
        read_bases(records.take(i + 1), ordinal) == if records[i].2 == ordinal {
            read_bases(records.take(i), ordinal).push(records[i].0)
        } else {
            read_bases(records.take(i), ordinal)
        },
        read_qualities(records.take(i + 1), ordinal) == if records[i].2 == ordinal {
            read_qualities(records.take(i), ordinal).push(quality_char(records[i].1))
        } else {
            read_qualities(records.take(i), ordinal)
        },
        index_code(records.take(i + 1), index) == if records[i].3 && index == Some(records[i].2) {
            (index_code(records.take(i), index) * 4 + call_value(records[i].0)) % 65536
        } else {
            index_code(records.take(i), index)
        },
{
    assert(records.take(i + 1).drop_last() =~= records.take(i));
}

/// Shifts one call into an index code.
pub fn fold_call(code: u16, base: char) -> (next: u16)
    ensures
        next as int == (code as int * 4 + call_value(base)) % 65536,
{
    let value: u16 = if base == 'C' {
        1
    } else if base == 'G' {
        2
    } else if base == 'T' {
        3
    } else {
        0
    };
    assert(((code << 2) | value) as u32 == (code as u32 * 4 + value as u32) % 65536)
        by (bit_vector)
        requires
            value < 4,
    ;
    (code << 2) | value
}

/// Puts the records of one cluster together and appends the cluster's
/// output to `out`.
pub fn emit_cluster(
    records: &Vec<CycleRecord>,
    layout: &ReadLayout,
    sheet: &SampleSheet,
    out: &mut Vec<OutputRecord>,
)
    requires
        layout.well_formed(),
        sheet.well_formed(),
        records_fit(records@, layout.read_count as int),
    ensures
        record_views(final(out)@) == record_views(old(out)@) + cluster_output(
            records@,
            layout,
            sheet,
        ),
{
    let reads = layout.read_count;
    let mut read_cache: Vec<Vec<char>> = Vec::new();
    let mut qual_cache: Vec<Vec<char>> = Vec::new();
    let mut r: usize = 0;
    while r < reads
        invariant
            r <= reads,
            read_cache@.len() == r,
            qual_cache@.len() == r,
            forall|k: int| 0 <= k < r ==> (#[trigger] read_cache@[k])@ == Seq::<char>::empty(),
            forall|k: int| 0 <= k < r ==> (#[trigger] qual_cache@[k])@ == Seq::<char>::empty(),
        decreases reads - r,
    {
        read_cache.push(Vec::new());
        qual_cache.push(Vec::new());
        r = r + 1;
    }
    let mut index: u16 = 0;
    let mut index_2: u16 = 0;
    let mut i: usize = 0;
    while i < records.len()
        invariant
            i <= records.len(),
            reads == layout.read_count,
            records_fit(records@, reads as int),
            read_cache@.len() == reads,
            qual_cache@.len() == reads,
            forall|k: int|
                0 <= k < reads ==> (#[trigger] read_cache@[k])@ == read_bases(
                    records@.take(i as int),
                    k,
                ),
            forall|k: int|
                0 <= k < reads ==> (#[trigger] qual_cache@[k])@ == read_qualities(
                    records@.take(i as int),
                    k,
                ),
            index as int == index_code(records@.take(i as int), layout.first_index),
            index_2 as int == index_code(records@.take(i as int), layout.second_index),
        decreases records.len() - i,
    {
        let (base, qual, pos, is_idx) = records[i];
        let ghost reads_before = read_cache@;
        let ghost quals_before = qual_cache@;
        read_cache[pos as usize].push(base);
        qual_cache[pos as usize].push((qual + 33) as char);
        if is_idx && layout.first_index == Some(pos) {
            index = fold_call(index, base);
        }
        if is_idx && layout.second_index == Some(pos) {
            index_2 = fold_call(index_2, base);
        }
        proof {
            lemma_accumulate_step(records@, i as int, 0, layout.first_index);
            lemma_accumulate_step(records@, i as int, 0, layout.second_index);
            assert forall|k: int| 0 <= k < reads implies (#[trigger] read_cache@[k])@
                == read_bases(records@.take(i + 1), k) by {
                lemma_accumulate_step(records@, i as int, k, layout.first_index);
                assert(reads_before[k]@ == read_bases(records@.take(i as int), k));
            }
            assert forall|k: int| 0 <= k < reads implies (#[trigger] qual_cache@[k])@
                == read_qualities(records@.take(i + 1), k) by {
                lemma_accumulate_step(records@, i as int, k, layout.first_index);
                assert(quals_before[k]@ == read_qualities(records@.take(i as int), k));
            }
        }
        i = i + 1;
    }
    proof {
        assert(records@.take(i as int) =~= records@);
    }
    let sample_r1_match = sheet.get_r1_sample_idx(index);
    let sample_r2_match = sheet.get_r2_sample_idx(index_2);
    let sample: u16 = if sample_r1_match == sample_r2_match {
        sample_r1_match
    } else {
        0
    };
    let ghost expected = cluster_output(records@, layout, sheet);
    let mut read: usize = 0;
    while read < reads
        invariant
            read <= reads,
            reads == layout.read_count,
            read_cache@.len() == reads,
            qual_cache@.len() == reads,
            expected == cluster_output(records@, layout, sheet),
            sample as int == cluster_sample(records@, layout, sheet),
            forall|k: int| 0 <= k < reads ==> (#[trigger] read_cache@[k])@ == read_bases(records@, k),
            forall|k: int|
                0 <= k < reads ==> (#[trigger] qual_cache@[k])@ == read_qualities(records@, k),
            record_views(out@) == record_views(old(out)@) + expected.take(read as int),
        decreases reads - read,
    {
        let text = format_record(sample as usize, &read_cache[read], &qual_cache[read]);
        let ghost before = out@;
        out.push(OutputRecord { sample_id: sample as usize, read_ordinal: read, text });
        proof {
            assert(expected.take(read + 1) =~= expected.take(read as int).push(expected[read as int]));
            assert(record_views(out@) =~= record_views(before).push(expected[read as int]));
        }
        read = read + 1;
    }
    proof {
        assert(expected.take(read as int) =~= expected);
    }
}

/// The output of one cluster.
pub fn demultiplex_cluster(
    records: &Vec<CycleRecord>,
    layout: &ReadLayout,
    sheet: &SampleSheet,
) -> (out: Vec<OutputRecord>)
    requires
        layout.well_formed(),
        sheet.well_formed(),
        records_fit(records@, layout.read_count as int),
    ensures
        record_views(out@) == cluster_output(records@, layout, sheet),
{
    let mut out: Vec<OutputRecord> = Vec::new();
    emit_cluster(records, layout, sheet, &mut out);
    assert(record_views(out@) =~= cluster_output(records@, layout, sheet));
    out
}

/// The records of every cluster of a tile fit the layout whose routing
/// bytes the decoder reads by.
pub proof fn lemma_cluster_records_fit(files: Seq<Seq<u8>>, layout: &ReadLayout, k: int)
    requires
        layout.well_formed(),
        files.len() == layout.cycle_descriptor@.len(),
    ensures
        records_fit(cluster_records(files, layout.cycle_descriptor@, k), layout.read_count as int),
{
    let records = cluster_records(files, layout.cycle_descriptor@, k);
    assert forall|i: int| 0 <= i < records.len() implies (#[trigger] records[i]).2
        < layout.read_count && records[i].1 <= MAX_QUALITY by {
        let mask = layout.cycle_descriptor@[i];
        assert(crate::run_info::mask_ordinal(mask as int) < layout.read_count);
    }
}

/// The output of a tile up to cluster `to`, one cluster further.
pub proof fn lemma_tile_output_step(
    files: Seq<Seq<u8>>,
    layout: &ReadLayout,
    sheet: &SampleSheet,
    from: int,
    to: int,
)
    requires
        from <= to,
    ensures
        tile_output(files, layout, sheet, from, to + 1) == tile_output(
            files,
            layout,
            sheet,
            from,
            to,
        ) + cluster_output(cluster_records(files, layout.cycle_descriptor@, to), layout, sheet),
{
}

/// Decodes the clusters of a tile that are left and gives the output of
/// each, in cluster order. Decoding ends with the shortest file.
pub fn demultiplex_tile(decoder: &mut BclIterator, layout: &ReadLayout, sheet: &SampleSheet) -> (out:
    Vec<OutputRecord>)
    requires
        old(decoder).well_formed(),
        layout.well_formed(),
        sheet.well_formed(),
        old(decoder).is_closed() || old(decoder).read_position_decode_memory_map@
            == layout.cycle_descriptor@,
    ensures
        final(decoder).well_formed(),
        final(decoder).open_files == old(decoder).open_files,
        final(decoder).cycles == old(decoder).cycles,
        final(decoder).cluster_count == old(decoder).cluster_count,
        final(decoder).read_position_decode_memory_map == old(
            decoder,
        ).read_position_decode_memory_map,
        final(decoder).position == if old(decoder).position < cluster_total(old(decoder).files()) {
            cluster_total(old(decoder).files())
        } else {
            old(decoder).position as int
        },
        record_views(out@) == tile_output(
            old(decoder).files(),
            layout,
            sheet,
            old(decoder).position as int,
            final(decoder).position as int,
        ),
{
    let ghost files = decoder.files();
    let ghost start = decoder.position as int;
    let ghost total = cluster_total(files);
    let mut out: Vec<OutputRecord> = Vec::new();
    let mut done = false;
    proof {
        assert(record_views(out@) =~= tile_output(files, layout, sheet, start, start));
    }
    while !done
        invariant
            decoder.well_formed(),
            layout.well_formed(),
            sheet.well_formed(),
            decoder.open_files == old(decoder).open_files,
            decoder.cycles == old(decoder).cycles,
            decoder.cluster_count == old(decoder).cluster_count,
            decoder.read_position_decode_memory_map == old(decoder).read_position_decode_memory_map,
            decoder.is_closed() || decoder.read_position_decode_memory_map@
                == layout.cycle_descriptor@,
            files == decoder.files(),
            total == cluster_total(files),
            start == old(decoder).position,
            start <= decoder.position,
            decoder.position == start || decoder.position <= total,
            done ==> decoder.position >= total,
            record_views(out@) == tile_output(files, layout, sheet, start, decoder.position as int),
        decreases
                (if done {
                    0
                } else if decoder.position < total {
                    1 + total - decoder.position
                } else {
                    1
                }),
    {
        let ghost k = decoder.position as int;
        proof {
            assert forall|c: int| 0 <= c < files.len() implies (#[trigger] files[c]).len()
                >= crate::bcl_iterator::HEADER_LEN by {
                assert(files[c] == decoder.open_files@[c]@);
            }
            lemma_clusters_end_with_shortest(files, k);
        }
        match decoder.next() {
            Some(records) => {
                proof {
                    lemma_cluster_records_fit(files, layout, k);
                    lemma_tile_output_step(files, layout, sheet, start, k);
                }
                emit_cluster(&records, layout, sheet, &mut out);
            },
            None => {
                done = true;
            },
        }
    }
    out
}

/// The code of a run of calls: two bits for each call, of which sixteen
/// bits are kept.
pub open spec fn calls_code(bases: Seq<char>) -> int
    decreases bases.len(),
{
    if bases.len() == 0 {
        0
    } else {
        (calls_code(bases.drop_last()) * 4 + call_value(bases.last())) % 65536
    }
}

/// Whether every record of the read at `ordinal` is flagged as belonging
/// to an index read.
pub open spec fn flagged_indexed(records: Seq<CycleRecord>, ordinal: int) -> bool {
    forall|i: int| 0 <= i < records.len() && (#[trigger] records[i]).2 == ordinal ==> records[i].3
}

/// The index code of a read whose records are all flagged as indexed is
/// the code of the read's calls.
pub proof fn lemma_index_code_reads_calls(records: Seq<CycleRecord>, ordinal: u8)
    requires
        flagged_indexed(records, ordinal as int),
    ensures
        index_code(records, Some(ordinal)) == calls_code(read_bases(records, ordinal as int)),
    decreases records.len(),
{
    if records.len() > 0 {
        let head = records.drop_last();
        assert forall|i: int| 0 <= i < head.len() && (#[trigger] head[i]).2 == ordinal implies head[i].3 by {
            assert(head[i] == records[i]);
        }
        lemma_index_code_reads_calls(head, ordinal);
        let last = records.last();
        assert(last == records[records.len() - 1]);
        if last.2 == ordinal {
            assert(read_bases(records, ordinal as int).drop_last() =~= read_bases(
                head,
                ordinal as int,
            ));
        }
    }
}

/// The code of at most eight calls that are all bases is the code of the
/// barcode that they spell.
pub proof fn lemma_calls_code_of_bases(bases: Seq<char>)
    requires
        all_bases(bases),
        bases.len() <= BARCODE_LEN,
    ensures
        calls_code(bases) == barcode_code(bases),
    decreases bases.len(),
{
    if bases.len() > 0 {
        let head = bases.drop_last();
        assert forall|i: int| 0 <= i < head.len() implies is_base(#[trigger] head[i]) by {
            assert(head[i] == bases[i]);
        }
        lemma_calls_code_of_bases(head);
        assert(is_base(bases[bases.len() - 1]));
        lemma_barcode_code_bound(bases);
        lemma_pow4_monotone(bases.len(), BARCODE_LEN as nat);
        lemma_pow4_values();
    }
}

/// A cluster whose two index reads spell codes that the sheet resolves to
/// row `k`, each within one substitution of that row's barcode and of no
/// later row's, belongs to the sample of row `k`.
pub proof fn lemma_matching_cluster_sample(
    records: Seq<CycleRecord>,
    layout: &ReadLayout,
    sheet: &SampleSheet,
    rows: Seq<SheetRow>,
    k: int,
)
    requires
        sheet.holds(rows),
        0 <= k < rows.len(),
        layout.first_index is Some,
        layout.second_index is Some,
        flagged_indexed(records, layout.first_index->0 as int),
        flagged_indexed(records, layout.second_index->0 as int),
        valid_barcode(read_bases(records, layout.first_index->0 as int)),
        valid_barcode(read_bases(records, layout.second_index->0 as int)),
        one_substitution(
            barcode_code(read_bases(records, layout.first_index->0 as int)),
            barcode_code(rows[k].0),
        ),
        one_substitution(
            barcode_code(read_bases(records, layout.second_index->0 as int)),
            barcode_code(rows[k].1),
        ),
        forall|j: int|
            k < j < rows.len() ==> !one_substitution(
                barcode_code(read_bases(records, layout.first_index->0 as int)),
                barcode_code((#[trigger] rows[j]).0),
            ),
        forall|j: int|
            k < j < rows.len() ==> !one_substitution(
                barcode_code(read_bases(records, layout.second_index->0 as int)),
                barcode_code((#[trigger] rows[j]).1),
            ),
    ensures
        cluster_sample(records, layout, sheet) == k + 1,
{
    let o1 = layout.first_index->0;
    let o2 = layout.second_index->0;
    let b1 = read_bases(records, o1 as int);
    let b2 = read_bases(records, o2 as int);
    lemma_index_code_reads_calls(records, o1);
    lemma_index_code_reads_calls(records, o2);
    lemma_calls_code_of_bases(b1);
    lemma_calls_code_of_bases(b2);
    lemma_barcode_code_bound(b1);
    lemma_barcode_code_bound(b2);
    lemma_pow4_values();
    let c1 = r1_codes(rows);
    let c2 = r2_codes(rows);
    assert forall|j: int| k < j < c1.len() implies !one_substitution(
        barcode_code(b1),
        #[trigger] c1[j],
    ) by {
        assert(c1[j] == barcode_code(rows[j].0));
    }
    assert forall|j: int| k < j < c2.len() implies !one_substitution(
        barcode_code(b2),
        #[trigger] c2[j],
    ) by {
        assert(c2[j] == barcode_code(rows[j].1));
    }
    lemma_neighbor_resolves(c1, k, barcode_code(b1));
    lemma_neighbor_resolves(c2, k, barcode_code(b2));
    assert(sheet.r1_table()[barcode_code(b1)] as int == resolve(c1, barcode_code(b1)));
    assert(sheet.r2_table()[barcode_code(b2)] as int == resolve(c2, barcode_code(b2)));
}

} // verus!
