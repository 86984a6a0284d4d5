//! The barcode sheet and its lookup tables: for each of the two index reads
//! one table over the whole code space, which gives every barcode of the
//! sheet, and every code one substitution away from it, its sample.

use vstd::prelude::*;
use crate::barcode::{
    all_bases, barcode_code, base_index, is_base, is_valid_barcode, lemma_barcode_code_bound,
    lemma_barcode_code_step, lemma_one_substitution_reflexive, lemma_pow4_monotone,
    lemma_pow4_values, mark_neighbors, one_substitution, pow4, valid_barcode, CODE_SPACE,
    MAX_CODED_LEN,
};

verus! {

/// One row of the barcode sheet as plain text: the barcode of the first
/// index read, that of the second, and the sample's name.
pub type SheetRow = (Seq<char>, Seq<char>, Seq<char>);

/// One row of the barcode sheet.
#[derive(Debug)]
pub struct SheetEntry {
    pub r1_barcode: String,
    pub r2_barcode: String,
    pub name: String,
}

impl View for SheetEntry {
    type V = SheetRow;

    open spec fn view(&self) -> SheetRow {
        (self.r1_barcode@, self.r2_barcode@, self.name@)
    }
}

/// Why a barcode sheet cannot be turned into tables.
#[derive(Debug, Clone, Copy, PartialEq, Eq, Structural)]
pub enum SheetError {
    /// The text is not well-formed comma-separated values.
    Malformed,
    /// The row at this position has fewer than three fields.
    MissingField(usize),
    /// A barcode of the row at this position is not eight bases.
    InvalidBarcode(usize),
    /// The sheet has more samples than a sample id can number.
    TooManySamples,
}

/// The rows of `entries` as plain text.
pub open spec fn entry_rows(entries: Seq<SheetEntry>) -> Seq<SheetRow> {
    Seq::new(entries.len(), |i: int| entries[i]@)
}

/// Whether both barcodes of a row are eight bases.
pub open spec fn row_valid(row: SheetRow) -> bool {
    valid_barcode(row.0) && valid_barcode(row.1)
}

/// The codes of the rows' barcodes for the first index read.
pub open spec fn r1_codes(rows: Seq<SheetRow>) -> Seq<int> {
    Seq::new(rows.len(), |i: int| barcode_code(rows[i].0))
}

/// The codes of the rows' barcodes for the second index read.
pub open spec fn r2_codes(rows: Seq<SheetRow>) -> Seq<int> {
    Seq::new(rows.len(), |i: int| barcode_code(rows[i].1))
}

/// The sample that `code` resolves to under the barcodes `codes`: the
/// position, counted from one, of the last barcode that `code` equals or
/// is one substitution away from, and zero where there is none.
pub open spec fn resolve(codes: Seq<int>, code: int) -> int
    decreases codes.len(),
{
    if codes.len() == 0 {
        0
    } else if one_substitution(code, codes.last()) {
        codes.len() as int
    } else {
        resolve(codes.drop_last(), code)
    }
}

/// The name of the sample with id `id`: `Unknown` for zero, else the name
/// in row `id - 1`.
pub open spec fn sample_name(rows: Seq<SheetRow>, id: int) -> Seq<char> {
    if id == 0 {
        "Unknown"@
    } else {
        rows[id - 1].2
    }
}

/// A code resolves to zero or to the position of a row.
pub proof fn lemma_resolve_range(codes: Seq<int>, code: int)
    ensures
        0 <= resolve(codes, code) <= codes.len(),
    decreases codes.len(),
{
    if codes.len() > 0 {
        lemma_resolve_range(codes.drop_last(), code);
    }
}

/// A code that no barcode of the sheet is within one substitution of
/// resolves to zero, the unknown sample.
pub proof fn lemma_unmatched_resolves_to_unknown(codes: Seq<int>, code: int)
    requires
        forall|j: int| 0 <= j < codes.len() ==> !one_substitution(code, #[trigger] codes[j]),
    ensures
        resolve(codes, code) == 0,
    decreases codes.len(),
{
    if codes.len() > 0 {
        let head = codes.drop_last();
        assert(codes.last() == codes[codes.len() - 1]);
        assert forall|j: int| 0 <= j < head.len() implies !one_substitution(
            code,
            #[trigger] head[j],
        ) by {
            assert(head[j] == codes[j]);
        }
        lemma_unmatched_resolves_to_unknown(head, code);
    }
}

/// A code within one substitution of the barcode in row `k` resolves to
/// that row's sample, unless a later row's barcode is within one
/// substitution of the code too: the last row wins.
pub proof fn lemma_neighbor_resolves(codes: Seq<int>, k: int, code: int)
    requires
        0 <= k < codes.len(),
        one_substitution(code, codes[k]),
        forall|j: int| k < j < codes.len() ==> !one_substitution(code, #[trigger] codes[j]),
    ensures
        resolve(codes, code) == k + 1,
    decreases codes.len(),
{
    if k < codes.len() - 1 {
        let head = codes.drop_last();
        assert(codes.last() == codes[codes.len() - 1]);
        assert(head[k] == codes[k]);
        assert forall|j: int| k < j < head.len() implies !one_substitution(
            code,
            #[trigger] head[j],
        ) by {
            assert(head[j] == codes[j]);
        }
        lemma_neighbor_resolves(head, k, code);
    }
}

/// A code resolves to a row's sample only if it is within one
/// substitution of that row's barcode and of no later row's.
pub proof fn lemma_resolve_names_last_match(codes: Seq<int>, code: int)
    ensures
        resolve(codes, code) > 0 ==> one_substitution(code, codes[resolve(codes, code) - 1]),
        forall|j: int|
            resolve(codes, code) <= j < codes.len() ==> !one_substitution(code, #[trigger] codes[j]),
    decreases codes.len(),
{
    if codes.len() > 0 {
        let head = codes.drop_last();
        lemma_resolve_names_last_match(head, code);
        lemma_resolve_range(head, code);
        if !one_substitution(code, codes.last()) {
            assert forall|j: int| resolve(codes, code) <= j < codes.len() implies !one_substitution(
                code,
                #[trigger] codes[j],
            ) by {
                if j < head.len() {
                    assert(head[j] == codes[j]);
                }
            }
            if resolve(codes, code) > 0 {
                assert(head[resolve(codes, code) - 1] == codes[resolve(codes, code) - 1]);
            }
        }
    }
}

/// The barcode of row `k` resolves to that row's sample, unless a later
/// row's barcode is equal to it or one substitution away from it.
pub proof fn lemma_exact_match_resolves(codes: Seq<int>, k: int)
    requires
        0 <= k < codes.len(),
        forall|j: int| k < j < codes.len() ==> !one_substitution(codes[k], #[trigger] codes[j]),
    ensures
        resolve(codes, codes[k]) == k + 1,
{
    lemma_one_substitution_reflexive(codes[k]);
    lemma_neighbor_resolves(codes, k, codes[k]);
}

/// The lookup tables of a barcode sheet, with the samples' names.
#[derive(Debug)]
pub struct SampleSheet {
    /// The sample id at each code of the first index read.
    pub r1_indexes: Vec<u16>,
    /// The sample id at each code of the second index read.
    pub r2_indexes: Vec<u16>,
    /// The samples' names by sample id; the name at zero is `Unknown`.
    pub names: Vec<String>,
}

impl SampleSheet {
    /// The table of the first index read: the sample id at each code.
    pub open spec fn r1_table(&self) -> Seq<u16> {
        self.r1_indexes@
    }

    /// The table of the second index read: the sample id at each code.
    pub open spec fn r2_table(&self) -> Seq<u16> {
        self.r2_indexes@
    }

    /// Whether both tables span the whole code space.
    pub open spec fn well_formed(&self) -> bool {
        self.r1_table().len() == CODE_SPACE && self.r2_table().len() == CODE_SPACE
    }

    /// Whether the tables and names are those of the sheet `rows`.
    pub open spec fn holds(&self, rows: Seq<SheetRow>) -> bool {
        &&& self.well_formed()
        &&& forall|c: int|
            0 <= c < CODE_SPACE ==> #[trigger] self.r1_table()[c] as int == resolve(r1_codes(rows), c)
        &&& forall|c: int|
            0 <= c < CODE_SPACE ==> #[trigger] self.r2_table()[c] as int == resolve(r2_codes(rows), c)
        &&& self.names@.len() == rows.len() + 1
        &&& forall|id: int|
            0 <= id <= rows.len() ==> (#[trigger] self.names@[id])@ == sample_name(rows, id)
    }

    /// The two-bit value of a base.
    pub fn ascii_to_index(c: char) -> (index: u8)
        requires
            is_base(c),
        ensures
            index as int == base_index(c),
    {
        if c == 'A' {
            0
        } else if c == 'C' {
            1
        } else if c == 'G' {
            2
        } else {
            3
        }
    }

    /// The code of a text of at most sixteen bases.
    pub fn index_string_to_vec(s: &str) -> (code: usize)
        requires
            all_bases(s@),
            s@.len() <= MAX_CODED_LEN,
        ensures
            code as int == barcode_code(s@),
    {
        let n = s.unicode_len();
        let mut code: u64 = 0;
        let mut i: usize = 0;
        while i < n
            invariant
                i <= n,
                n == s@.len(),
                n <= MAX_CODED_LEN,
                all_bases(s@),
                code as int == barcode_code(s@.take(i as int)),
            decreases n - i,
        {
            let c = s.get_char(i);
            let d: u64 = Self::ascii_to_index(c) as u64;
            proof {
                lemma_barcode_code_step(s@, i as int);
                lemma_barcode_code_bound(s@.take(i as int));
                lemma_pow4_monotone(i as nat, 15);
                lemma_pow4_values();
                reveal_with_fuel(pow4, 17);
                assert(code < 0x4000_0000u64);
                assert((code << 2) | d == code * 4 + d) by (bit_vector)
                    requires
                        code < 0x4000_0000u64,
                        d < 4,
                ;
            }
            code = (code << 2) | d;
            i = i + 1;
        }
        proof {
            assert(s@.take(i as int) =~= s@);
            lemma_barcode_code_bound(s@);
            lemma_pow4_monotone(n as nat, 16);
            lemma_pow4_values();
        }
        code as usize
    }

    /// The sample of a code of the first index read.
    pub fn get_r1_sample_idx(&self, r1_read: u16) -> (id: u16)
        requires
            self.well_formed(),
        ensures
            id == self.r1_table()[r1_read as int],
    {
        self.r1_indexes[r1_read as usize]
    }

    /// The sample of a code of the second index read.
    pub fn get_r2_sample_idx(&self, r2_read: u16) -> (id: u16)
        requires
            self.well_formed(),
        ensures
            id == self.r2_table()[r2_read as int],
    {
        self.r2_indexes[r2_read as usize]
    }
}

/// What building the tables from the sheet `rows` gives: the tables, where
/// the sheet has fewer samples than codes and every barcode is eight
/// bases; else the error of the sample count, or that of the first row
/// with a barcode that is not.
pub open spec fn build_outcome(rows: Seq<SheetRow>, sheet: Result<SampleSheet, SheetError>) -> bool {
    match sheet {
        Ok(s) => {
            &&& rows.len() < CODE_SPACE
            &&& forall|i: int| 0 <= i < rows.len() ==> row_valid(#[trigger] rows[i])
            &&& s.holds(rows)
        },
        Err(SheetError::TooManySamples) => rows.len() >= CODE_SPACE,
        Err(SheetError::InvalidBarcode(row)) => {
            &&& rows.len() < CODE_SPACE
            &&& row < rows.len()
            &&& !row_valid(rows[row as int])
            &&& forall|i: int| 0 <= i < row ==> row_valid(#[trigger] rows[i])
        },
        Err(_) => false,
    }
}

impl SampleSheet {
    /// Builds the tables of a barcode sheet. Sample ids follow the order of
    /// the rows, from one; each row writes its id at its barcodes and at
    /// every code one substitution away, over what earlier rows wrote.
    pub fn build(entries: &Vec<SheetEntry>) -> (sheet: Result<SampleSheet, SheetError>)
        ensures
            build_outcome(entry_rows(entries@), sheet),
    {
        let n = entries.len();
        if n >= CODE_SPACE {
            return Err(SheetError::TooManySamples);
        }
        let ghost rows = entry_rows(entries@);
        let mut r1_indexes: Vec<u16> = vec![0u16; CODE_SPACE];
        let mut r2_indexes: Vec<u16> = vec![0u16; CODE_SPACE];
        let mut names: Vec<String> = Vec::new();
        names.push("Unknown".to_owned());
        let mut row: usize = 0;
        while row < n
            invariant
                row <= n,
                n == entries.len(),
                n < CODE_SPACE,
                rows == entry_rows(entries@),
                r1_indexes@.len() == CODE_SPACE,
                r2_indexes@.len() == CODE_SPACE,
                forall|i: int| 0 <= i < row ==> row_valid(#[trigger] rows[i]),
                forall|c: int|
                    0 <= c < CODE_SPACE ==> #[trigger] r1_indexes@[c] as int == resolve(
                        r1_codes(rows).take(row as int),
                        c,
                    ),
                forall|c: int|
                    0 <= c < CODE_SPACE ==> #[trigger] r2_indexes@[c] as int == resolve(
                        r2_codes(rows).take(row as int),
                        c,
                    ),
                names@.len() == row + 1,
                forall|id: int| 0 <= id <= row ==> (#[trigger] names@[id])@ == sample_name(rows, id),
            decreases n - row,
        {
            let entry = &entries[row];
            assert(rows[row as int] == entry@);
            if !is_valid_barcode(entry.r1_barcode.as_str()) || !is_valid_barcode(
                entry.r2_barcode.as_str(),
            ) {
                return Err(SheetError::InvalidBarcode(row));
            }
            let r1_code = Self::index_string_to_vec(entry.r1_barcode.as_str());
            let r2_code = Self::index_string_to_vec(entry.r2_barcode.as_str());
            proof {
                lemma_barcode_code_bound(entry.r1_barcode@);
                lemma_barcode_code_bound(entry.r2_barcode@);
                lemma_pow4_values();
            }
            let id: u16 = (row + 1) as u16;
            let ghost r1_before = r1_indexes@;
            let ghost r2_before = r2_indexes@;
            let ghost names_before = names@;
            mark_neighbors(&mut r1_indexes, r1_code as u32, id);
            mark_neighbors(&mut r2_indexes, r2_code as u32, id);
            names.push(entry.name.clone());
            proof {
                let next1 = r1_codes(rows).take(row + 1);
                let next2 = r2_codes(rows).take(row + 1);
                assert(next1.drop_last() =~= r1_codes(rows).take(row as int));
                assert(next2.drop_last() =~= r2_codes(rows).take(row as int));
                assert(next1.last() == r1_code as int);
                assert(next2.last() == r2_code as int);
                assert forall|c: int| 0 <= c < CODE_SPACE implies #[trigger] r1_indexes@[c] as int
                    == resolve(next1, c) by {
                    assert(r1_before[c] as int == resolve(r1_codes(rows).take(row as int), c));
                }
                assert forall|c: int| 0 <= c < CODE_SPACE implies #[trigger] r2_indexes@[c] as int
                    == resolve(next2, c) by {
                    assert(r2_before[c] as int == resolve(r2_codes(rows).take(row as int), c));
                }
                assert forall|id: int| 0 <= id <= row + 1 implies (#[trigger] names@[id])@
                    == sample_name(rows, id) by {
                    if id <= row {
                        assert(names@[id] == names_before[id]);
                    }
                }
            }
            row = row + 1;
        }
        proof {
            assert(r1_codes(rows).take(row as int) =~= r1_codes(rows));
            assert(r2_codes(rows).take(row as int) =~= r2_codes(rows));
        }
        Ok(SampleSheet { r1_indexes, r2_indexes, names })
    }
}

/// In the tables of a sheet, the two barcodes of row `k` resolve to that
/// row's sample, unless a later row has a barcode for the same index read
/// that is equal to or one substitution away from the one of row `k`.
pub proof fn lemma_tables_resolve_row(sheet: &SampleSheet, rows: Seq<SheetRow>, k: int)
    requires
        sheet.holds(rows),
        0 <= k < rows.len(),
        row_valid(rows[k]),
        forall|j: int|
            k < j < rows.len() ==> !one_substitution(
                barcode_code(rows[k].0),
                barcode_code((#[trigger] rows[j]).0),
            ),
        forall|j: int|
            k < j < rows.len() ==> !one_substitution(
                barcode_code(rows[k].1),
                barcode_code((#[trigger] rows[j]).1),
            ),
    ensures
        0 <= barcode_code(rows[k].0) < CODE_SPACE,
        0 <= barcode_code(rows[k].1) < CODE_SPACE,
        sheet.r1_table()[barcode_code(rows[k].0)] == k + 1,
        sheet.r2_table()[barcode_code(rows[k].1)] == k + 1,
{
    lemma_barcode_code_bound(rows[k].0);
    lemma_barcode_code_bound(rows[k].1);
    lemma_pow4_values();
    lemma_one_substitution_reflexive(barcode_code(rows[k].0));
    lemma_one_substitution_reflexive(barcode_code(rows[k].1));
    lemma_first_table_resolves_neighbor(sheet, rows, k, barcode_code(rows[k].0));
    lemma_second_table_resolves_neighbor(sheet, rows, k, barcode_code(rows[k].1));
}

/// In the table of the first index read, a code within one substitution
/// of the barcode of row `k` resolves to that row's sample, unless it is
/// within one substitution of a later row's barcode too.
pub proof fn lemma_first_table_resolves_neighbor(
    sheet: &SampleSheet,
    rows: Seq<SheetRow>,
    k: int,
    code: int,
)
    requires
        sheet.holds(rows),
        0 <= k < rows.len(),
        0 <= code < CODE_SPACE,
        one_substitution(code, barcode_code(rows[k].0)),
        forall|j: int|
            k < j < rows.len() ==> !one_substitution(code, barcode_code((#[trigger] rows[j]).0)),
    ensures
        sheet.r1_table()[code] == k + 1,
{
    let codes = r1_codes(rows);
    assert forall|j: int| k < j < codes.len() implies !one_substitution(code, #[trigger] codes[j]) by {
        assert(codes[j] == barcode_code(rows[j].0));
    }
    lemma_neighbor_resolves(codes, k, code);
    assert(sheet.r1_table()[code] as int == resolve(codes, code));
}

/// In the table of the second index read, a code within one substitution
/// of the barcode of row `k` resolves to that row's sample, unless it is
/// within one substitution of a later row's barcode too.
pub proof fn lemma_second_table_resolves_neighbor(
    sheet: &SampleSheet,
    rows: Seq<SheetRow>,
    k: int,
    code: int,
)
    requires
        sheet.holds(rows),
        0 <= k < rows.len(),
        0 <= code < CODE_SPACE,
        one_substitution(code, barcode_code(rows[k].1)),
        forall|j: int|
            k < j < rows.len() ==> !one_substitution(code, barcode_code((#[trigger] rows[j]).1)),
    ensures
        sheet.r2_table()[code] == k + 1,
{
    let codes = r2_codes(rows);
    assert forall|j: int| k < j < codes.len() implies !one_substitution(code, #[trigger] codes[j]) by {
        assert(codes[j] == barcode_code(rows[j].1));
    }
    lemma_neighbor_resolves(codes, k, code);
    assert(sheet.r2_table()[code] as int == resolve(codes, code));
}

} // verus!
