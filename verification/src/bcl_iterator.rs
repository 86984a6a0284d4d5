//! The tile decoder: the per-cycle base-call files of one tile, read in
//! lock-step, one byte of each file for each cluster.

use vstd::prelude::*;
use crate::run_info::{descriptor, mask_indexed, mask_ordinal, sum_cycles, Reads};

verus! {

/// Length of the header of a cycle file: the cluster count.
pub const HEADER_LEN: usize = 4;

/// One base call of one cluster: the base, the raw quality score, the
/// ordinal of the read that owns the cycle, and whether that read is an
/// index read.
pub type CycleRecord = (char, u8, u8, bool);

/// Why a tile's cycle files cannot be decoded.
#[derive(Debug, Clone, Copy, PartialEq, Eq, Structural)]
pub enum DecodeError {
    /// The number of cycles is not that of the read layout.
    CycleCountMismatch,
    /// There is not one file for each cycle.
    FileCountMismatch,
    /// The file of the cycle at this position ends within its header.
    TruncatedHeader(usize),
}

/// The base with the two-bit value `code`.
pub open spec fn base_char(code: int) -> char {
    if code == 0 {
        'A'
    } else if code == 1 {
        'C'
    } else if code == 2 {
        'G'
    } else {
        'T'
    }
}

/// The base and quality that a byte of a cycle file stands for: no call
/// and quality zero for the byte zero; else the base in the two low bits
/// and the quality in the six high bits.
pub open spec fn decode_call(byte: u8) -> (char, u8) {
    if byte == 0 {
        ('N', 0u8)
    } else {
        (base_char(byte as int % 4), (byte / 4) as u8)
    }
}

/// The record of a byte of a cycle whose routing byte is `mask`.
pub open spec fn cycle_record(byte: u8, mask: u8) -> CycleRecord {
    (
        decode_call(byte).0,
        decode_call(byte).1,
        mask_ordinal(mask as int) as u8,
        mask_indexed(mask as int),
    )
}

/// The number that four bytes hold, the lowest byte first.
pub open spec fn le_u32(b0: u8, b1: u8, b2: u8, b3: u8) -> int {
    b0 + 256 * b1 + 65536 * b2 + 16777216 * b3
}

/// The cluster count that the header of a cycle file declares.
pub open spec fn declared_count(file: Seq<u8>) -> int {
    le_u32(file[0], file[1], file[2], file[3])
}

/// Whether every file holds a byte for cluster `k`. A tile without files
/// has no clusters.
pub open spec fn has_cluster(files: Seq<Seq<u8>>, k: int) -> bool {
    files.len() > 0 && forall|c: int| 0 <= c < files.len() ==> HEADER_LEN + k < (#[trigger] files[c]).len()
}

/// The records of cluster `k`, one for each cycle in the order of the files.
pub open spec fn cluster_records(files: Seq<Seq<u8>>, masks: Seq<u8>, k: int) -> Seq<CycleRecord> {
    Seq::new(files.len(), |c: int| cycle_record(files[c][HEADER_LEN + k], masks[c]))
}

/// The number of clusters that the files hold: the number of bytes after
/// the header in the shortest of them.
pub open spec fn cluster_total(files: Seq<Seq<u8>>) -> int
    decreases files.len(),
{
    if files.len() == 0 {
        0
    } else if files.len() == 1 {
        files[0].len() - HEADER_LEN
    } else if files.last().len() - HEADER_LEN < cluster_total(files.drop_last()) {
        files.last().len() - HEADER_LEN
    } else {
        cluster_total(files.drop_last())
    }
}

/// The files hold a byte for cluster `k` exactly when `k` is below the
/// number of bytes after the header in the shortest file: decoding ends
/// with the shortest file, whatever the headers declare.
pub proof fn lemma_clusters_end_with_shortest(files: Seq<Seq<u8>>, k: int)
    requires
        k >= 0,
        forall|c: int| 0 <= c < files.len() ==> (#[trigger] files[c]).len() >= HEADER_LEN,
    ensures
        has_cluster(files, k) == (k < cluster_total(files)),
    decreases files.len(),
{
    if files.len() == 1 {
        if k < cluster_total(files) {
            assert(has_cluster(files, k));
        }
    } else if files.len() > 1 {
        let head = files.drop_last();
        assert forall|c: int| 0 <= c < head.len() implies (#[trigger] head[c]).len()
            >= HEADER_LEN by {
            assert(head[c] == files[c]);
        }
        lemma_clusters_end_with_shortest(head, k);
        if has_cluster(files, k) {
            assert(files.last() == files[files.len() - 1]);
            assert forall|c: int| 0 <= c < head.len() implies HEADER_LEN + k < (
            #[trigger] head[c]).len() by {
                assert(head[c] == files[c]);
            }
            assert(has_cluster(head, k));
        }
        if k < cluster_total(files) {
            assert(has_cluster(head, k));
            assert forall|c: int| 0 <= c < files.len() implies HEADER_LEN + k < (
            #[trigger] files[c]).len() by {
                if c < head.len() {
                    assert(head[c] == files[c]);
                }
            }
        }
    }
}

/// Decodes one byte of a cycle file into base and quality.
pub fn decode_byte(byte: u8) -> (call: (char, u8))
    ensures
        call == decode_call(byte),
        byte == 0 ==> call == ('N', 0u8),
        byte != 0 ==> call.0 == base_char((byte & 0b11) as int) && call.1 == byte >> 2,
        call.1 <= 63,
{
    assert(byte & 0b11 == byte % 4 && byte >> 2 == byte / 4 && byte >> 2 <= 63) by (bit_vector);
    if byte == 0 {
        ('N', 0)
    } else {
        let code: u8 = byte & 0b11;
        let base = if code == 0 {
            'A'
        } else if code == 1 {
            'C'
        } else if code == 2 {
            'G'
        } else {
            'T'
        };
        (base, byte >> 2)
    }
}

/// Reads the cluster count in the header of a cycle file.
pub fn read_cluster_count(file: &Vec<u8>) -> (count: u32)
    requires
        file@.len() >= HEADER_LEN,
    ensures
        count as int == declared_count(file@),
{
    let b0: u32 = file[0] as u32;
    let b1: u32 = file[1] as u32;
    let b2: u32 = file[2] as u32;
    let b3: u32 = file[3] as u32;
    b0 + 256 * b1 + 65536 * b2 + 16777216 * b3
}

/// The cycle files of one tile and the place up to which they are read.
#[derive(Debug)]
pub struct BclIterator {
    /// Number of cycles of the run.
    pub cycles: u32,
    /// The bytes of each cycle file, header included; empty once closed.
    pub open_files: Vec<Vec<u8>>,
    /// Number of clusters handed out so far.
    pub position: usize,
    /// The cluster count that each file's header declares.
    pub cluster_count: Vec<u32>,
    /// The routing byte of each cycle.
    pub read_position_decode_memory_map: Vec<u8>,
}

/// The content of each file of `files`.
pub open spec fn file_bytes(files: Seq<Vec<u8>>) -> Seq<Seq<u8>> {
    Seq::new(files.len(), |c: int| files[c]@)
}

impl BclIterator {
    /// The content of the files that are open.
    pub open spec fn files(&self) -> Seq<Seq<u8>> {
        file_bytes(self.open_files@)
    }

    /// Whether the decoder was closed, or never had a file.
    pub open spec fn is_closed(&self) -> bool {
        self.open_files@.len() == 0
    }

    /// What holds of a decoder from its making on: unless it is closed it
    /// has one file and one routing byte for each cycle, and every file
    /// has its header.
    pub open spec fn well_formed(&self) -> bool {
        self.is_closed() || {
            &&& self.open_files@.len() == self.cycles
            &&& self.read_position_decode_memory_map@.len() == self.cycles
            &&& forall|c: int|
                0 <= c < self.open_files@.len() ==> (#[trigger] self.open_files@[c])@.len()
                    >= HEADER_LEN
        }
    }

    /// Whether the decoder is the fresh one over `files` for the layout
    /// of `reads`.
    pub open spec fn opened_on(&self, files: Seq<Seq<u8>>, reads: &Reads) -> bool {
        &&& self.well_formed()
        &&& self.files() == files
        &&& self.position == 0
        &&& self.cycles == files.len()
        &&& self.read_position_decode_memory_map@ == descriptor(reads.read@)
        &&& self.cluster_count@.len() == files.len()
        &&& forall|c: int|
            0 <= c < files.len() ==> (#[trigger] self.cluster_count@[c]) as int == declared_count(
                files[c],
            )
    }

    /// Takes the cycle files of a tile and reads each file's header.
    pub fn new(cycles: u32, files: Vec<Vec<u8>>, reads: &Reads) -> (decoder: Result<
        BclIterator,
        DecodeError,
    >)
        requires
            reads.well_formed(),
        ensures
            match decoder {
                Ok(d) => {
                    &&& cycles == sum_cycles(reads.read@)
                    &&& files@.len() == cycles
                    &&& forall|c: int|
                        0 <= c < files@.len() ==> (#[trigger] files@[c])@.len() >= HEADER_LEN
                    &&& d.opened_on(file_bytes(files@), reads)
                },
                Err(DecodeError::CycleCountMismatch) => cycles != sum_cycles(reads.read@),
                Err(DecodeError::FileCountMismatch) => {
                    &&& cycles == sum_cycles(reads.read@)
                    &&& files@.len() != cycles
                },
                Err(DecodeError::TruncatedHeader(c)) => {
                    &&& cycles == sum_cycles(reads.read@)
                    &&& files@.len() == cycles
                    &&& c < files@.len()
                    &&& files@[c as int]@.len() < HEADER_LEN
                    &&& forall|b: int| 0 <= b < c ==> (#[trigger] files@[b])@.len() >= HEADER_LEN
                },
            },
    {
        let memory_map = reads.create_memory_map_decode();
        if memory_map.len() != cycles as usize {
            return Err(DecodeError::CycleCountMismatch);
        }
        if files.len() != cycles as usize {
            return Err(DecodeError::FileCountMismatch);
        }
        let mut cluster_count: Vec<u32> = Vec::new();
        let mut c: usize = 0;
        while c < files.len()
            invariant
                c <= files.len(),
                files@.len() == cycles,
                cycles == sum_cycles(reads.read@),
                cluster_count@.len() == c,
                forall|b: int| 0 <= b < c ==> (#[trigger] files@[b])@.len() >= HEADER_LEN,
                forall|b: int|
                    0 <= b < c ==> (#[trigger] cluster_count@[b]) as int == declared_count(
                        files@[b]@,
                    ),
            decreases files.len() - c,
        {
            if files[c].len() < HEADER_LEN {
                return Err(DecodeError::TruncatedHeader(c));
            }
            let count = read_cluster_count(&files[c]);
            cluster_count.push(count);
            c = c + 1;
        }
        Ok(
            BclIterator {
                cycles,
                open_files: files,
                position: 0,
                cluster_count,
                read_position_decode_memory_map: memory_map,
            },
        )
    }

    /// The records of the next cluster, one for each cycle, or nothing
    /// once any file has no byte left for it.
    pub fn next(&mut self) -> (cluster: Option<Vec<CycleRecord>>)
        requires
            old(self).well_formed(),
        ensures
            final(self).well_formed(),
            final(self).open_files == old(self).open_files,
            final(self).cycles == old(self).cycles,
            final(self).cluster_count == old(self).cluster_count,
            final(self).read_position_decode_memory_map == old(
                self,
            ).read_position_decode_memory_map,
            match cluster {
                Some(records) => {
                    &&& has_cluster(old(self).files(), old(self).position as int)
                    &&& records@ == cluster_records(
                        old(self).files(),
                        old(self).read_position_decode_memory_map@,
                        old(self).position as int,
                    )
                    &&& final(self).position == old(self).position + 1
                },
                None => {
                    &&& !has_cluster(old(self).files(), old(self).position as int)
                    &&& final(self).position == old(self).position
                },
            },
    {
        let n = self.open_files.len();
        if n == 0 {
            return None;
        }
        let ghost files = self.files();
        let ghost masks = self.read_position_decode_memory_map@;
        let mut buffer: Vec<CycleRecord> = Vec::new();
        let mut file_i: usize = 0;
        while file_i < n
            invariant
                file_i <= n,
                n == self.open_files@.len(),
                n > 0,
                self.well_formed(),
                *self == *old(self),
                files == self.files(),
                masks == self.read_position_decode_memory_map@,
                buffer@.len() == file_i,
                forall|c: int| 0 <= c < file_i ==> HEADER_LEN + self.position < (#[trigger] files[c]).len(),
                forall|c: int|
                    0 <= c < file_i ==> #[trigger] buffer@[c] == cycle_record(
                        files[c][HEADER_LEN + self.position],
                        masks[c],
                    ),
            decreases n - file_i,
        {
            let file = &self.open_files[file_i];
            assert(files[file_i as int] == file@);
            if self.position >= file.len() - HEADER_LEN {
                return None;
            }
            let mem_map_position: u8 = self.read_position_decode_memory_map[file_i];
            let read_number: u8 = mem_map_position >> 4;
            let is_indexed_read: bool = (mem_map_position & 1) == 1;
            assert(mem_map_position >> 4 == mem_map_position / 16 && ((mem_map_position & 1) == 1)
                == (mem_map_position % 2 == 1)) by (bit_vector);
            let byte: u8 = file[HEADER_LEN + self.position];
            let call = decode_byte(byte);
            buffer.push((call.0, call.1, read_number, is_indexed_read));
            file_i = file_i + 1;
        }
        assert(buffer@ =~= cluster_records(files, masks, self.position as int));
        assert(HEADER_LEN + self.position < files[0].len());
        assert(files[0].len() == self.open_files@[0].len());
        self.position = self.position + 1;
        Some(buffer)
    }

    /// Lets go of the cycle files. A closed decoder has no further cluster.
    pub fn close(&mut self)
        ensures
            final(self).is_closed(),
            final(self).well_formed(),
            final(self).position == old(self).position,
            final(self).cycles == old(self).cycles,
            final(self).cluster_count == old(self).cluster_count,
            final(self).read_position_decode_memory_map == old(
                self,
            ).read_position_decode_memory_map,
    {
        self.open_files = Vec::new();
    }

    /// The cluster count that the first file's header declares, for
    /// reports of progress only: decoding does not stop at it.
    pub fn first_cluster_count(&self) -> (count: Option<u32>)
        ensures
            count == if self.cluster_count@.len() > 0 {
                Some(self.cluster_count@[0])
            } else {
                None
            },
    {
        if self.cluster_count.len() > 0 {
            Some(self.cluster_count[0])
        } else {
            None
        }
    }
}

} // verus!
