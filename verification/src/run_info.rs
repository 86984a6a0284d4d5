//! Run configuration: the ordered logical reads of a run and the routing
//! byte that tells the decoder, for each cycle, which read owns it.

use vstd::prelude::*;

verus! {

/// Largest read ordinal, and largest declared read number, that the routing
/// byte can carry: each has three bits.
pub const MAX_MASK_FIELD: u8 = 7;

/// Largest number of logical reads in a layout.
pub const MAX_READS: usize = 8;

/// The routing byte for a read at `ordinal` with declared number `number`:
/// ordinal in bits 4..7, number in bits 1..4, indexed flag in bit 0.
pub open spec fn pack_mask(ordinal: int, number: int, indexed: bool) -> int {
    ordinal * 16 + number * 2 + if indexed { 1int } else { 0int }
}

/// The ordinal held by a routing byte.
pub open spec fn mask_ordinal(mask: int) -> int {
    mask / 16
}

/// The declared read number held by a routing byte.
pub open spec fn mask_number(mask: int) -> int {
    (mask / 2) % 8
}

/// The indexed-read flag held by a routing byte.
pub open spec fn mask_indexed(mask: int) -> bool {
    mask % 2 == 1
}

/// The text of the indexed-read flag: `Y` for an index read, `N` otherwise.
pub open spec fn flag_text(indexed: bool) -> Seq<char> {
    if indexed { seq!['Y'] } else { seq!['N'] }
}

/// One logical read of the run.
#[derive(Debug)]
pub struct Read {
    pub num_cycles: u32,
    pub number: u32,
    /// `Y` for an index read; any other text means a sequence read.
    pub is_indexed_read: String,
}

impl Read {
    /// Whether this read is an index read.
    pub open spec fn is_indexed(&self) -> bool {
        self.is_indexed_read@ == flag_text(true)
    }

    /// Whether the declared number fits the routing byte.
    pub open spec fn fits_mask(&self) -> bool {
        self.number <= MAX_MASK_FIELD
    }

    /// The routing byte of this read when it stands at `ordinal`.
    pub open spec fn mask_at(&self, ordinal: int) -> int {
        pack_mask(ordinal, self.number as int, self.is_indexed())
    }

    pub fn new(num_cycles: u32, number: u32, is_indexed_read: String) -> (read: Read)
        ensures
            read.num_cycles == num_cycles,
            read.number == number,
            read.is_indexed_read == is_indexed_read,
    {
        Read { num_cycles, number, is_indexed_read }
    }

    /// Tells whether the flag text marks an index read.
    pub fn indexed(&self) -> (yes: bool)
        ensures
            yes == self.is_indexed(),
    {
        let flag = self.is_indexed_read.as_str();
        if flag.unicode_len() == 1 {
            let yes = flag.get_char(0) == 'Y';
            proof {
                if yes {
                    assert(flag@ =~= flag_text(true));
                }
            }
            yes
        } else {
            false
        }
    }

    /// Packs the read's position, declared number and flag into one byte.
    pub fn create_bit_mask_representation(&self, index: u8) -> (mask: u8)
        requires
            index <= MAX_MASK_FIELD,
            self.fits_mask(),
        ensures
            mask as int == self.mask_at(index as int),
    {
        let number: u8 = self.number as u8;
        let flag: u8 = if self.indexed() { 1 } else { 0 };
        let mut mask: u8 = 0;
        mask |= index << 4;
        mask |= number << 1;
        mask |= flag;
        assert(((0u8 | (index << 4)) | (number << 1)) | flag == index * 16 + number * 2 + flag)
            by (bit_vector)
            requires
                index <= 7,
                number <= 7,
                flag <= 1,
        ;
        mask
    }

    /// Unpacks a routing byte into ordinal, declared number and flag text.
    pub fn decode_bit_mask_representation(mask: u8) -> (fields: (u8, u8, String))
        ensures
            fields.0 as int == mask_ordinal(mask as int),
            fields.1 as int == mask_number(mask as int),
            fields.2@ == flag_text(mask_indexed(mask as int)),
    {
        let index: u8 = mask >> 4;
        let number: u8 = (mask >> 1) & 0b111;
        let indexed: bool = mask & 1 == 1;
        assert(mask >> 4 == mask / 16) by (bit_vector);
        assert((mask >> 1) & 0b111 == (mask / 2) % 8) by (bit_vector);
        assert((mask & 1 == 1) == (mask % 2 == 1)) by (bit_vector);
        let text = if indexed { "Y" } else { "N" };
        proof {
            reveal_strlit("Y");
            reveal_strlit("N");
            assert("Y"@ =~= flag_text(true));
            assert("N"@ =~= flag_text(false));
        }
        (index, number, text.to_owned())
    }
}

/// Packing a read's ordinal, declared number and flag into a routing byte
/// and unpacking the byte gives the three fields back, for every ordinal and
/// number that has three bits and for both flags. The byte is below 128.
pub proof fn lemma_mask_round_trip(ordinal: int, number: int, indexed: bool)
    requires
        0 <= ordinal <= MAX_MASK_FIELD,
        0 <= number <= MAX_MASK_FIELD,
    ensures
        0 <= pack_mask(ordinal, number, indexed) < 128,
        mask_ordinal(pack_mask(ordinal, number, indexed)) == ordinal,
        mask_number(pack_mask(ordinal, number, indexed)) == number,
        mask_indexed(pack_mask(ordinal, number, indexed)) == indexed,
{
}

/// Sum of the cycle counts of `reads`.
pub open spec fn sum_cycles(reads: Seq<Read>) -> nat
    decreases reads.len(),
{
    if reads.len() == 0 {
        0
    } else {
        sum_cycles(reads.drop_last()) + reads.last().num_cycles as nat
    }
}

/// The routing bytes of `reads`, cycle by cycle: each read in declaration
/// order contributes its own byte once for each of its cycles.
pub open spec fn descriptor(reads: Seq<Read>) -> Seq<u8>
    decreases reads.len(),
{
    if reads.len() == 0 {
        Seq::empty()
    } else {
        descriptor(reads.drop_last()) + Seq::new(
            reads.last().num_cycles as nat,
            |c: int| reads.last().mask_at(reads.len() - 1) as u8,
        )
    }
}

/// Whether `reads` fits the routing byte: at most eight reads, each with a
/// declared number of three bits.
pub open spec fn reads_fit(reads: Seq<Read>) -> bool {
    &&& reads.len() <= MAX_READS
    &&& forall|i: int| 0 <= i < reads.len() ==> (#[trigger] reads[i]).fits_mask()
}

/// The sum of cycle counts over a prefix grows with the prefix.
pub proof fn lemma_sum_cycles_step(reads: Seq<Read>, i: int)
    requires
        0 <= i < reads.len(),
    ensures
        sum_cycles(reads.take(i + 1)) == sum_cycles(reads.take(i)) + reads[i].num_cycles,
        sum_cycles(reads.take(i + 1)) <= sum_cycles(reads),
    decreases reads.len() - i,
{
    assert(reads.take(i + 1).drop_last() =~= reads.take(i));
    if i + 1 < reads.len() {
        lemma_sum_cycles_step(reads, i + 1);
    } else {
        assert(reads.take(i + 1) =~= reads);
    }
}

/// The routing bytes of a prefix, one read longer.
pub proof fn lemma_descriptor_step(reads: Seq<Read>, i: int)
    requires
        0 <= i < reads.len(),
    ensures
        descriptor(reads.take(i + 1)) == descriptor(reads.take(i)) + Seq::new(
            reads[i].num_cycles as nat,
            |c: int| reads[i].mask_at(i) as u8,
        ),
{
    assert(reads.take(i + 1).drop_last() =~= reads.take(i));
    assert(Seq::new(
        reads.take(i + 1).last().num_cycles as nat,
        |c: int| reads.take(i + 1).last().mask_at(reads.take(i + 1).len() - 1) as u8,
    ) =~= Seq::new(reads[i].num_cycles as nat, |c: int| reads[i].mask_at(i) as u8));
}

/// The routing bytes of a layout are as many as its cycles.
pub proof fn lemma_descriptor_len(reads: Seq<Read>)
    ensures
        descriptor(reads).len() == sum_cycles(reads),
    decreases reads.len(),
{
    if reads.len() > 0 {
        lemma_descriptor_len(reads.drop_last());
    }
}

/// Each cycle's routing byte is that of the read that owns the cycle: the
/// cycles of the read at `ordinal` follow those of the reads before it,
/// and each of them carries that read's byte.
pub proof fn lemma_descriptor_owner(reads: Seq<Read>, ordinal: int, offset: int)
    requires
        0 <= ordinal < reads.len(),
        0 <= offset < reads[ordinal].num_cycles,
    ensures
        sum_cycles(reads.take(ordinal)) + offset < descriptor(reads).len(),
        descriptor(reads)[sum_cycles(reads.take(ordinal)) + offset] == reads[ordinal].mask_at(
            ordinal,
        ) as u8,
    decreases reads.len(),
{
    let head = reads.drop_last();
    lemma_descriptor_len(head);
    lemma_descriptor_len(reads);
    if ordinal == reads.len() - 1 {
        assert(reads.take(ordinal) =~= head);
    } else {
        assert(reads.take(ordinal) =~= head.take(ordinal));
        assert(head[ordinal] == reads[ordinal]);
        lemma_sum_cycles_step(head, ordinal);
        lemma_descriptor_owner(head, ordinal, offset);
    }
}

/// The ordered logical reads of a run.
#[derive(Debug)]
pub struct Reads {
    pub read: Vec<Read>,
}

impl Reads {
    /// Whether the reads fit the routing byte.
    pub open spec fn well_formed(&self) -> bool {
        reads_fit(self.read@)
    }

    /// Number of cycles of the run: the sum of the reads' cycle counts.
    pub fn calculate_total_cycles(&self) -> (total: u32)
        requires
            sum_cycles(self.read@) <= u32::MAX,
        ensures
            total == sum_cycles(self.read@),
    {
        let mut total: u32 = 0;
        let mut i: usize = 0;
        while i < self.read.len()
            invariant
                i <= self.read.len(),
                total == sum_cycles(self.read@.take(i as int)),
                sum_cycles(self.read@) <= u32::MAX,
            decreases self.read.len() - i,
        {
            proof {
                lemma_sum_cycles_step(self.read@, i as int);
            }
            total = total + self.read[i].num_cycles;
            i = i + 1;
        }
        assert(self.read@.take(i as int) =~= self.read@);
        total
    }

    /// The routing bytes of the run, one for each cycle.
    pub fn create_memory_map_decode(&self) -> (memory_map: Vec<u8>)
        requires
            self.well_formed(),
        ensures
            memory_map@ == descriptor(self.read@),
            memory_map@.len() == sum_cycles(self.read@),
    {
        let mut memory_map: Vec<u8> = Vec::new();
        let mut ri: usize = 0;
        while ri < self.read.len()
            invariant
                ri <= self.read.len(),
                self.well_formed(),
                memory_map@ == descriptor(self.read@.take(ri as int)),
            decreases self.read.len() - ri,
        {
            let r = &self.read[ri];
            let mask: u8 = r.create_bit_mask_representation(ri as u8);
            let ghost before = memory_map@;
            let mut i: u32 = 0;
            while i < r.num_cycles
                invariant
                    i <= r.num_cycles,
                    memory_map@ == before + Seq::new(i as nat, |c: int| mask),
                decreases r.num_cycles - i,
            {
                memory_map.push(mask);
                i = i + 1;
                assert(memory_map@ =~= before + Seq::new(i as nat, |c: int| mask));
            }
            proof {
                lemma_descriptor_step(self.read@, ri as int);
                assert(Seq::new(r.num_cycles as nat, |c: int| mask) =~= Seq::new(
                    self.read@[ri as int].num_cycles as nat,
                    |c: int| self.read@[ri as int].mask_at(ri as int) as u8,
                ));
            }
            ri = ri + 1;
        }
        proof {
            assert(self.read@.take(ri as int) =~= self.read@);
            lemma_descriptor_len(self.read@);
        }
        memory_map
    }
}

/// Shape of the flow cell.
#[derive(Debug)]
pub struct FlowcellLayout {
    pub lane_count: u32,
    pub surface_count: u32,
    pub swath_count: u32,
    pub tile_count: u32,
}

/// One sequencing run as its configuration document declares it.
#[derive(Debug)]
pub struct Run {
    pub id: String,
    pub number: u32,
    pub flowcell: String,
    pub instrument: String,
    pub date: String,
    pub reads: Reads,
    pub flowcell_layout: FlowcellLayout,
}

/// The run configuration document.
#[derive(Debug)]
pub struct RunInfo {
    pub run: Run,
}

} // verus!
