//! The barcode sheet as text: comma-separated rows without a header, each
//! with the two barcodes and the sample's name in its first three fields.

use vstd::prelude::*;
use crate::barcode::{barcode_code, one_substitution, valid_barcode, CODE_SPACE};
use crate::sample_sheet::{
    build_outcome, lemma_first_table_resolves_neighbor, lemma_second_table_resolves_neighbor,
    row_valid, SampleSheet, SheetEntry, SheetError, SheetRow,
};

verus! {

/// The error type of the `csv` crate, carried through unread.
#[verifier::external_type_specification]
#[verifier::external_body]
pub struct ExCsvError(csv::Error);

/// What the `csv` crate reads from `text` with no header row, the comma as
/// delimiter and its other settings as they are by default: the fields of
/// every record in order, or nothing where it reports an error.
pub uninterp spec fn csv_rows(text: Seq<char>) -> Option<Seq<Seq<Seq<char>>>>;

/// Reads all records of `text` with `csv::ReaderBuilder` (`has_headers`
/// off, `delimiter` a comma, `from_reader` on the text's bytes) and
/// `Reader::records`, and copies each field out as a `String`. The
/// contract gives the outcome its name and says nothing else of it.
#[verifier::external_body]
fn read_rows(text: &str) -> (rows: Result<Vec<Vec<String>>, csv::Error>)
    ensures
        match rows {
            Ok(r) => csv_rows(text@) == Some(r.deep_view()),
            Err(_) => csv_rows(text@) is None,
        },
{
    let mut reader = csv::ReaderBuilder::new().has_headers(false).delimiter(b',').from_reader(
        text.as_bytes(),
    );
    reader.records().map(|record| record.map(|r| r.iter().map(|f| f.to_string()).collect())).collect()
}

/// The first three fields of each of `rows`.
pub open spec fn rows_as_sheet(rows: Seq<Seq<Seq<char>>>) -> Seq<SheetRow> {
    Seq::new(rows.len(), |i: int| (rows[i][0], rows[i][1], rows[i][2]))
}

/// What the records `rows` give: the error of the first record with fewer
/// than three fields; where there is none, what building the tables from
/// the records' first three fields gives.
pub open spec fn rows_outcome(
    rows: Seq<Seq<Seq<char>>>,
    sheet: Result<SampleSheet, SheetError>,
) -> bool {
    match sheet {
        Err(SheetError::Malformed) => false,
        Err(SheetError::MissingField(row)) => {
            &&& row < rows.len()
            &&& rows[row as int].len() < 3
            &&& forall|i: int| 0 <= i < row ==> (#[trigger] rows[i]).len() >= 3
        },
        _ => {
            &&& forall|i: int| 0 <= i < rows.len() ==> (#[trigger] rows[i]).len() >= 3
            &&& build_outcome(rows_as_sheet(rows), sheet)
        },
    }
}

/// What the text of a sheet gives: the error of malformed text where the
/// records cannot be read, else what the records give.
pub open spec fn text_outcome(text: Seq<char>, sheet: Result<SampleSheet, SheetError>) -> bool {
    match csv_rows(text) {
        None => sheet == Err::<SampleSheet, SheetError>(SheetError::Malformed),
        Some(rows) => rows_outcome(rows, sheet),
    }
}

impl SampleSheet {
    /// Builds the tables from the records of a sheet.
    pub fn from_rows(rows: &Vec<Vec<String>>) -> (sheet: Result<SampleSheet, SheetError>)
        ensures
            rows_outcome(rows.deep_view(), sheet),
    {
        let ghost texts = rows.deep_view();
        let mut entries: Vec<SheetEntry> = Vec::new();
        let mut i: usize = 0;
        while i < rows.len()
            invariant
                i <= rows.len(),
                texts == rows.deep_view(),
                texts.len() == rows.len(),
                entries@.len() == i,
                forall|k: int| 0 <= k < i ==> (#[trigger] texts[k]).len() >= 3,
                forall|k: int|
                    0 <= k < i ==> (#[trigger] entries@[k])@ == (texts[k][0], texts[k][1], texts[k][2]),
            decreases rows.len() - i,
        {
            let record = &rows[i];
            assert(texts[i as int] == record.deep_view());
            assert(record.deep_view().len() == record@.len());
            if record.len() < 3 {
                return Err(SheetError::MissingField(i));
            }
            assert(record.deep_view()[0] == record@[0]@);
            assert(record.deep_view()[1] == record@[1]@);
            assert(record.deep_view()[2] == record@[2]@);
            let entry = SheetEntry {
                r1_barcode: record[0].clone(),
                r2_barcode: record[1].clone(),
                name: record[2].clone(),
            };
            entries.push(entry);
            i = i + 1;
        }
        assert(crate::sample_sheet::entry_rows(entries@) =~= rows_as_sheet(texts));
        SampleSheet::build(&entries)
    }

    /// Reads the text of a sheet and builds its tables.
    pub fn parse(text: &str) -> (sheet: Result<SampleSheet, SheetError>)
        ensures
            text_outcome(text@, sheet),
    {
        match read_rows(text) {
            Ok(rows) => SampleSheet::from_rows(&rows),
            Err(_) => Err(SheetError::Malformed),
        }
    }
}

impl std::str::FromStr for SampleSheet {
    type Err = SheetError;

    fn from_str(s: &str) -> (sheet: Result<SampleSheet, SheetError>)
        ensures
            text_outcome(s@, sheet),
    {
        SampleSheet::parse(s)
    }
}

/// A sheet of fewer rows than there are codes, whose records all have
/// three fields and two barcodes of eight bases, gives its tables; and in
/// them a code within one substitution of a barcode of row `k` resolves
/// to that row's sample, unless a later row's barcode for the same index
/// read is within one substitution of the code too. Where several rows
/// are that near, the last of them wins.
pub proof fn lemma_rows_sheet_resolves(
    rows: Seq<Seq<Seq<char>>>,
    sheet: Result<SampleSheet, SheetError>,
    k: int,
    first_code: int,
    second_code: int,
)
    requires
        rows_outcome(rows, sheet),
        rows.len() < CODE_SPACE,
        forall|i: int|
            0 <= i < rows.len() ==> (#[trigger] rows[i]).len() >= 3 && valid_barcode(rows[i][0])
                && valid_barcode(rows[i][1]),
        0 <= k < rows.len(),
        0 <= first_code < CODE_SPACE,
        0 <= second_code < CODE_SPACE,
        one_substitution(first_code, barcode_code(rows[k][0])),
        one_substitution(second_code, barcode_code(rows[k][1])),
        forall|j: int|
            k < j < rows.len() ==> !one_substitution(first_code, barcode_code((#[trigger] rows[j])[0])),
        forall|j: int|
            k < j < rows.len() ==> !one_substitution(
                second_code,
                barcode_code((#[trigger] rows[j])[1]),
            ),
    ensures
        sheet is Ok,
        sheet->Ok_0.r1_table()[first_code] == k + 1,
        sheet->Ok_0.r2_table()[second_code] == k + 1,
{
    let entries = rows_as_sheet(rows);
    assert forall|i: int| 0 <= i < entries.len() implies row_valid(#[trigger] entries[i]) by {
        assert(rows[i].len() >= 3);
    }
    match sheet {
        Ok(tables) => {
            assert forall|j: int| k < j < entries.len() implies !one_substitution(
                first_code,
                barcode_code((#[trigger] entries[j]).0),
            ) by {
                assert(entries[j].0 == rows[j][0]);
            }
            assert forall|j: int| k < j < entries.len() implies !one_substitution(
                second_code,
                barcode_code((#[trigger] entries[j]).1),
            ) by {
                assert(entries[j].1 == rows[j][1]);
            }
            lemma_first_table_resolves_neighbor(&tables, entries, k, first_code);
            lemma_second_table_resolves_neighbor(&tables, entries, k, second_code);
        },
        Err(SheetError::MissingField(row)) => {
            assert(rows[row as int].len() >= 3);
        },
        Err(SheetError::InvalidBarcode(row)) => {
            assert(row_valid(entries[row as int]));
        },
        Err(_) => {},
    }
}

} // verus!
