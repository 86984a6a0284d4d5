//! The read layout: a run's reads checked against the capacity of the
//! routing byte, with the compiled per-cycle routing bytes and the ordinals
//! of the two index reads.

use vstd::prelude::*;
use crate::run_info::{
    descriptor, lemma_descriptor_len, lemma_mask_round_trip, lemma_sum_cycles_step, mask_ordinal,
    reads_fit, sum_cycles, Read, Reads, MAX_MASK_FIELD, MAX_READS,
};

verus! {

/// Why a run's reads cannot be laid out.
#[derive(Debug, Clone, Copy, PartialEq, Eq, Structural)]
pub enum ConfigError {
    /// More than eight reads are declared.
    TooManyReads,
    /// A declared read number does not fit in three bits.
    NumberOutOfRange,
    /// The cycle counts add up to more than a `u32` holds.
    TooManyCycles,
}

/// The error that `reads` gives, if any: the read count is checked first,
/// then the declared numbers, then the total of the cycle counts.
pub open spec fn config_error(reads: Seq<Read>) -> Option<ConfigError> {
    if reads.len() > MAX_READS {
        Some(ConfigError::TooManyReads)
    } else if !reads_fit(reads) {
        Some(ConfigError::NumberOutOfRange)
    } else if sum_cycles(reads) > u32::MAX {
        Some(ConfigError::TooManyCycles)
    } else {
        None
    }
}

/// The ordinals of the index reads of `reads`, in declaration order.
pub open spec fn indexed_ordinals(reads: Seq<Read>) -> Seq<int>
    decreases reads.len(),
{
    if reads.len() == 0 {
        Seq::empty()
    } else if reads.last().is_indexed() {
        indexed_ordinals(reads.drop_last()).push(reads.len() - 1)
    } else {
        indexed_ordinals(reads.drop_last())
    }
}

/// The `n`-th entry of `ordinals` as a byte, if there is one.
pub open spec fn ordinal_at(ordinals: Seq<int>, n: int) -> Option<u8> {
    if 0 <= n < ordinals.len() {
        Some(ordinals[n] as u8)
    } else {
        None
    }
}

/// Every index-read ordinal of `reads` is the position of a read.
pub proof fn lemma_indexed_ordinals_bound(reads: Seq<Read>)
    ensures
        forall|n: int|
            0 <= n < indexed_ordinals(reads).len() ==> 0 <= #[trigger] indexed_ordinals(reads)[n]
                < reads.len(),
        indexed_ordinals(reads).len() <= reads.len(),
    decreases reads.len(),
{
    if reads.len() > 0 {
        lemma_indexed_ordinals_bound(reads.drop_last());
    }
}

/// The index-read ordinals of a prefix, one read longer.
pub proof fn lemma_indexed_ordinals_step(reads: Seq<Read>, i: int)
    requires
        0 <= i < reads.len(),
    ensures
        indexed_ordinals(reads.take(i + 1)) == if reads[i].is_indexed() {
            indexed_ordinals(reads.take(i)).push(i)
        } else {
            indexed_ordinals(reads.take(i))
        },
{
    assert(reads.take(i + 1).drop_last() =~= reads.take(i));
}

/// Every routing byte of a layout that fits names the position of a read.
pub proof fn lemma_descriptor_ordinals(reads: Seq<Read>)
    requires
        reads_fit(reads),
    ensures
        forall|c: int|
            0 <= c < descriptor(reads).len() ==> 0 <= mask_ordinal(
                #[trigger] descriptor(reads)[c] as int,
            ) < reads.len(),
    decreases reads.len(),
{
    if reads.len() > 0 {
        let head = reads.drop_last();
        let last = reads.last();
        lemma_descriptor_ordinals(head);
        lemma_mask_round_trip(reads.len() - 1, last.number as int, last.is_indexed());
        assert forall|c: int| 0 <= c < descriptor(reads).len() implies 0 <= mask_ordinal(
            #[trigger] descriptor(reads)[c] as int,
        ) < reads.len() by {
            if c < descriptor(head).len() {
                assert(descriptor(reads)[c] == descriptor(head)[c]);
            } else {
                assert(descriptor(reads)[c] == last.mask_at(reads.len() - 1) as u8);
            }
        }
    }
}

/// A run's reads, checked and compiled for the decoder.
#[derive(Debug)]
pub struct ReadLayout {
    /// Number of cycles of the run.
    pub total_cycles: u32,
    /// The routing byte of each cycle.
    pub cycle_descriptor: Vec<u8>,
    /// Number of logical reads.
    pub read_count: usize,
    /// Ordinal of the first index read, if the run has one.
    pub first_index: Option<u8>,
    /// Ordinal of the second index read, if the run has two.
    pub second_index: Option<u8>,
}

impl ReadLayout {
    /// Whether the layout is the one that `reads` compiles to.
    pub open spec fn describes(&self, reads: Seq<Read>) -> bool {
        &&& self.total_cycles == sum_cycles(reads)
        &&& self.cycle_descriptor@ == descriptor(reads)
        &&& self.read_count == reads.len()
        &&& self.first_index == ordinal_at(indexed_ordinals(reads), 0)
        &&& self.second_index == ordinal_at(indexed_ordinals(reads), 1)
    }

    /// What holds of every layout that was built: one routing byte for each
    /// cycle, each naming one of at most eight reads, and index reads that
    /// are among them, the first before the second.
    pub open spec fn well_formed(&self) -> bool {
        &&& self.cycle_descriptor@.len() == self.total_cycles
        &&& self.read_count <= MAX_READS
        &&& forall|c: int|
            0 <= c < self.cycle_descriptor@.len() ==> mask_ordinal(
                #[trigger] self.cycle_descriptor@[c] as int,
            ) < self.read_count
        &&& self.first_index matches Some(o) ==> o < self.read_count
        &&& self.second_index matches Some(o) ==> o < self.read_count
        &&& self.second_index is Some ==> self.first_index is Some
    }

    /// Checks the reads against the capacity of the routing byte and
    /// compiles them.
    pub fn build(reads: &Reads) -> (layout: Result<ReadLayout, ConfigError>)
        ensures
            match layout {
                Ok(l) => config_error(reads.read@) is None && l.describes(reads.read@)
                    && l.well_formed(),
                Err(e) => config_error(reads.read@) == Some(e),
            },
    {
        let n = reads.read.len();
        if n > MAX_READS {
            return Err(ConfigError::TooManyReads);
        }
        let mut total: u32 = 0;
        let mut overflow = false;
        let mut first_index: Option<u8> = None;
        let mut second_index: Option<u8> = None;
        let mut i: usize = 0;
        while i < n
            invariant
                i <= n,
                n == reads.read.len(),
                n <= MAX_READS,
                reads_fit(reads.read@.take(i as int)),
                overflow <==> sum_cycles(reads.read@.take(i as int)) > u32::MAX,
                !overflow ==> total == sum_cycles(reads.read@.take(i as int)),
                first_index == ordinal_at(indexed_ordinals(reads.read@.take(i as int)), 0),
                second_index == ordinal_at(indexed_ordinals(reads.read@.take(i as int)), 1),
            decreases n - i,
        {
            let r = &reads.read[i];
            proof {
                lemma_sum_cycles_step(reads.read@, i as int);
                lemma_indexed_ordinals_step(reads.read@, i as int);
                lemma_indexed_ordinals_bound(reads.read@.take(i as int));
            }
            if r.number > MAX_MASK_FIELD as u32 {
                proof {
                    assert(!reads.read@[i as int].fits_mask());
                }
                return Err(ConfigError::NumberOutOfRange);
            }
            if !overflow {
                match total.checked_add(r.num_cycles) {
                    Some(t) => {
                        total = t;
                    },
                    None => {
                        overflow = true;
                    },
                }
            }
            if r.indexed() {
                if first_index.is_none() {
                    first_index = Some(i as u8);
                } else if second_index.is_none() {
                    second_index = Some(i as u8);
                }
            }
            proof {
                let next = reads.read@.take(i + 1);
                assert forall|k: int| 0 <= k < next.len() implies (#[trigger] next[k]).fits_mask() by {
                    if k < i {
                        assert(next[k] == reads.read@.take(i as int)[k]);
                    }
                }
            }
            i = i + 1;
        }
        proof {
            assert(reads.read@.take(i as int) =~= reads.read@);
        }
        if overflow {
            return Err(ConfigError::TooManyCycles);
        }
        let cycle_descriptor = reads.create_memory_map_decode();
        proof {
            lemma_descriptor_len(reads.read@);
            lemma_descriptor_ordinals(reads.read@);
            lemma_indexed_ordinals_bound(reads.read@);
        }
        Ok(ReadLayout { total_cycles: total, cycle_descriptor, read_count: n, first_index, second_index })
    }
}

} // verus!
