//! The writer stage: output records gathered by sink, one sink for each
//! sample and read, and handed on in batches.

use vstd::prelude::*;
use crate::demux::{record_views, OutputRecord, RecordModel};

verus! {

/// Number of records of one sink that are gathered before they are
/// handed on together.
pub const BATCH_SIZE: usize = 1000;

/// The texts of `texts` one after the other.
pub open spec fn concat_texts(texts: Seq<Seq<char>>) -> Seq<char>
    decreases texts.len(),
{
    if texts.len() == 0 {
        Seq::empty()
    } else {
        concat_texts(texts.drop_last()) + texts.last()
    }
}

/// The texts of `records` that are bound for the sink of `sample` and
/// `read`, one after the other in the order of `records`.
pub open spec fn sink_text(records: Seq<RecordModel>, sample: int, read: int) -> Seq<char>
    decreases records.len(),
{
    if records.len() == 0 {
        Seq::empty()
    } else if records.last().0 == sample && records.last().1 == read {
        sink_text(records.drop_last(), sample, read) + records.last().2
    } else {
        sink_text(records.drop_last(), sample, read)
    }
}

/// The texts held by `texts`.
pub open spec fn text_views(texts: Seq<String>) -> Seq<Seq<char>> {
    Seq::new(texts.len(), |i: int| texts[i]@)
}

/// The text that a sink gets from `records` with one more record behind.
pub proof fn lemma_sink_text_push(records: Seq<RecordModel>, record: RecordModel, sample: int, read: int)
    ensures
        sink_text(records.push(record), sample, read) == if record.0 == sample && record.1 == read {
            sink_text(records, sample, read) + record.2
        } else {
            sink_text(records, sample, read)
        },
{
    assert(records.push(record).drop_last() =~= records);
}

/// Joins the texts of `texts` into one.
pub fn join_texts(texts: &Vec<String>) -> (joined: String)
    ensures
        joined@ == concat_texts(text_views(texts@)),
{
    let mut joined = String::new();
    let mut i: usize = 0;
    while i < texts.len()
        invariant
            i <= texts.len(),
            joined@ == concat_texts(text_views(texts@).take(i as int)),
        decreases texts.len() - i,
    {
        joined.append(texts[i].as_str());
        proof {
            let views = text_views(texts@);
            assert(views.take(i + 1).drop_last() =~= views.take(i as int));
        }
        i = i + 1;
    }
    proof {
        assert(text_views(texts@).take(i as int) =~= text_views(texts@));
    }
    joined
}

/// The records gathered for each sink and not yet handed on.
#[derive(Debug)]
pub struct BatchWriter {
    /// The gathered records of each sink, by sample and by read.
    pub buffers: Vec<Vec<Vec<String>>>,
    /// Number of reads: each sample has that many sinks.
    pub reads: usize,
}

impl BatchWriter {
    /// Number of samples.
    pub open spec fn samples(&self) -> int {
        self.buffers@.len() as int
    }

    /// The texts gathered for the sink of `sample` and `read`.
    pub open spec fn slot(&self, sample: int, read: int) -> Seq<Seq<char>> {
        text_views(self.buffers@[sample]@[read]@)
    }

    /// The text that the sink of `sample` and `read` is still owed.
    pub open spec fn pending(&self, sample: int, read: int) -> Seq<char> {
        concat_texts(self.slot(sample, read))
    }

    /// What holds of a writer between calls: every sample has one buffer
    /// for each read, and no buffer holds a full batch.
    pub open spec fn well_formed(&self) -> bool {
        &&& forall|s: int|
            0 <= s < self.buffers@.len() ==> (#[trigger] self.buffers@[s])@.len() == self.reads
        &&& forall|s: int, r: int|
            0 <= s < self.buffers@.len() && 0 <= r < self.reads ==> (#[trigger] self.slot(s, r)).len()
                < BATCH_SIZE
    }

    /// A writer for `samples` samples of `reads` reads each, with nothing
    /// gathered.
    pub fn new(samples: usize, reads: usize) -> (writer: BatchWriter)
        ensures
            writer.well_formed(),
            writer.samples() == samples,
            writer.reads == reads,
            forall|s: int, r: int|
                0 <= s < samples && 0 <= r < reads ==> (#[trigger] writer.slot(s, r)).len() == 0,
    {
        let mut buffers: Vec<Vec<Vec<String>>> = Vec::new();
        let mut s: usize = 0;
        while s < samples
            invariant
                s <= samples,
                buffers@.len() == s,
                forall|a: int| 0 <= a < s ==> (#[trigger] buffers@[a])@.len() == reads,
                forall|a: int, b: int|
                    0 <= a < s && 0 <= b < reads ==> (#[trigger] buffers@[a]@[b])@.len() == 0,
            decreases samples - s,
        {
            let mut row: Vec<Vec<String>> = Vec::new();
            let mut r: usize = 0;
            while r < reads
                invariant
                    r <= reads,
                    row@.len() == r,
                    forall|b: int| 0 <= b < r ==> (#[trigger] row@[b])@.len() == 0,
                decreases reads - r,
            {
                row.push(Vec::new());
                r = r + 1;
            }
            buffers.push(row);
            s = s + 1;
        }
        let writer = BatchWriter { buffers, reads };
        assert forall|a: int, b: int| 0 <= a < samples && 0 <= b < reads implies (
        #[trigger] writer.slot(a, b)).len() == 0 by {
            assert(writer.buffers@[a]@[b]@.len() == 0);
        }
        writer
    }

    /// Takes one record for the sink of `sample_idx` and `read_idx`. Once
    /// the sink has a full batch, hands back the batch's records joined
    /// in the order they came, and starts the sink's next batch.
    pub fn push(&mut self, sample_idx: usize, read_idx: usize, record: String) -> (batch: Option<
        String,
    >)
        requires
            old(self).well_formed(),
            sample_idx < old(self).samples(),
            read_idx < old(self).reads,
        ensures
            final(self).well_formed(),
            final(self).samples() == old(self).samples(),
            final(self).reads == old(self).reads,
            forall|s: int, r: int|
                0 <= s < old(self).samples() && 0 <= r < old(self).reads && !(s == sample_idx && r
                    == read_idx) ==> #[trigger] final(self).slot(s, r) == old(self).slot(s, r),
            match batch {
                Some(data) => {
                    &&& old(self).slot(sample_idx as int, read_idx as int).len() + 1 >= BATCH_SIZE
                    &&& data@ == old(self).pending(sample_idx as int, read_idx as int) + record@
                    &&& final(self).slot(sample_idx as int, read_idx as int).len() == 0
                },
                None => {
                    &&& old(self).slot(sample_idx as int, read_idx as int).len() + 1 < BATCH_SIZE
                    &&& final(self).slot(sample_idx as int, read_idx as int) == old(self).slot(
                        sample_idx as int,
                        read_idx as int,
                    ).push(record@)
                },
            },
    {
        let ghost before = old(self).slot(sample_idx as int, read_idx as int);
        self.buffers[sample_idx][read_idx].push(record);
        proof {
            assert(self.slot(sample_idx as int, read_idx as int) =~= before.push(record@));
            assert(before.push(record@).drop_last() =~= before);
            assert forall|s: int, r: int|
                0 <= s < old(self).samples() && 0 <= r < old(self).reads && !(s == sample_idx && r
                    == read_idx) implies #[trigger] self.slot(s, r) == old(self).slot(s, r) by {
                assert(old(self).buffers@[s]@.len() == self.reads);
            }
        }
        if self.buffers[sample_idx][read_idx].len() >= BATCH_SIZE {
            let data = join_texts(&self.buffers[sample_idx][read_idx]);
            self.buffers[sample_idx][read_idx].clear();
            proof {
                assert(self.slot(sample_idx as int, read_idx as int).len() == 0);
                assert forall|s: int, r: int|
                    0 <= s < old(self).samples() && 0 <= r < old(self).reads && !(s == sample_idx
                        && r == read_idx) implies #[trigger] self.slot(s, r) == old(self).slot(
                    s,
                    r,
                ) by {
                    assert(old(self).buffers@[s]@.len() == self.reads);
                }
            }
            Some(data)
        } else {
            None
        }
    }
}

/// Whether the sink of `a` and `b` comes before that of `s` and `r` when
/// the sinks are walked sample by sample and, within a sample, read by
/// read.
pub open spec fn sink_before(a: int, b: int, s: int, r: int) -> bool {
    a < s || (a == s && b < r)
}

/// The text that a sink gets from two runs of records, one after the
/// other, is what it gets from the first followed by what it gets from
/// the second.
pub proof fn lemma_sink_text_concat(
    first: Seq<RecordModel>,
    second: Seq<RecordModel>,
    sample: int,
    read: int,
)
    ensures
        sink_text(first + second, sample, read) == sink_text(first, sample, read) + sink_text(
            second,
            sample,
            read,
        ),
    decreases second.len(),
{
    if second.len() == 0 {
        assert(first + second =~= first);
        assert(sink_text(first, sample, read) + Seq::<char>::empty() =~= sink_text(
            first,
            sample,
            read,
        ));
    } else {
        assert((first + second).drop_last() =~= first + second.drop_last());
        assert((first + second).last() == second.last());
        lemma_sink_text_concat(first, second.drop_last(), sample, read);
        assert((sink_text(first, sample, read) + sink_text(second.drop_last(), sample, read))
            + second.last().2 =~= sink_text(first, sample, read) + (sink_text(
            second.drop_last(),
            sample,
            read,
        ) + second.last().2));
    }
}

/// The texts that the sink of `sample` and `read` holds once the writer
/// has taken `records`: those of the sink's records since its last full
/// batch, in the order they came.
pub open spec fn gathered(records: Seq<RecordModel>, sample: int, read: int) -> Seq<Seq<char>>
    decreases records.len(),
{
    if records.len() == 0 {
        Seq::empty()
    } else if records.last().0 == sample && records.last().1 == read {
        if gathered(records.drop_last(), sample, read).len() + 1 >= BATCH_SIZE {
            Seq::empty()
        } else {
            gathered(records.drop_last(), sample, read).push(records.last().2)
        }
    } else {
        gathered(records.drop_last(), sample, read)
    }
}

/// The full batches that the writer hands on while it takes `records`:
/// one write for each record that fills its sink's batch, with that
/// batch's texts joined.
pub open spec fn batch_writes(records: Seq<RecordModel>) -> Seq<RecordModel>
    decreases records.len(),
{
    if records.len() == 0 {
        Seq::empty()
    } else if gathered(records.drop_last(), records.last().0, records.last().1).len() + 1
        >= BATCH_SIZE {
        batch_writes(records.drop_last()).push(
            (
                records.last().0,
                records.last().1,
                concat_texts(
                    gathered(records.drop_last(), records.last().0, records.last().1).push(
                        records.last().2,
                    ),
                ),
            ),
        )
    } else {
        batch_writes(records.drop_last())
    }
}

/// What is left of one sample when its sinks hold `slot`: for each of the
/// first `upto` reads whose sink holds anything, in order, one write with
/// the sink's texts joined.
pub open spec fn row_rest(slot: spec_fn(int, int) -> Seq<Seq<char>>, sample: int, upto: int) -> Seq<
    RecordModel,
>
    decreases upto,
{
    if upto <= 0 {
        Seq::empty()
    } else if slot(sample, upto - 1).len() > 0 {
        row_rest(slot, sample, upto - 1).push(
            (sample, upto - 1, concat_texts(slot(sample, upto - 1))),
        )
    } else {
        row_rest(slot, sample, upto - 1)
    }
}

/// What is left when the sinks hold `slot`: what is left of each of the
/// first `upto` samples, sample by sample, each with `reads` reads.
pub open spec fn rest_writes(slot: spec_fn(int, int) -> Seq<Seq<char>>, upto: int, reads: int) -> Seq<
    RecordModel,
>
    decreases upto,
{
    if upto <= 0 {
        Seq::empty()
    } else {
        rest_writes(slot, upto - 1, reads) + row_rest(slot, upto - 1, reads)
    }
}

/// The writes of the writer stage over `records`: the full batches in the
/// order they fill, then what is left, sink by sink.
pub open spec fn stage_writes(records: Seq<RecordModel>, samples: int, reads: int) -> Seq<
    RecordModel,
> {
    batch_writes(records) + rest_writes(
        |s: int, r: int| gathered(records, s, r),
        samples,
        reads,
    )
}

/// What is left depends on what the sinks in range hold, and on nothing
/// else.
pub proof fn lemma_rest_writes_agree(
    first: spec_fn(int, int) -> Seq<Seq<char>>,
    second: spec_fn(int, int) -> Seq<Seq<char>>,
    samples: int,
    reads: int,
)
    requires
        forall|s: int, r: int|
            0 <= s < samples && 0 <= r < reads ==> #[trigger] first(s, r) == second(s, r),
    ensures
        rest_writes(first, samples, reads) == rest_writes(second, samples, reads),
    decreases samples,
{
    if samples > 0 {
        lemma_rest_writes_agree(first, second, samples - 1, reads);
        lemma_row_rest_agree(first, second, samples - 1, reads);
    }
}

/// What is left of one sample depends on what its sinks in range hold.
pub proof fn lemma_row_rest_agree(
    first: spec_fn(int, int) -> Seq<Seq<char>>,
    second: spec_fn(int, int) -> Seq<Seq<char>>,
    sample: int,
    upto: int,
)
    requires
        forall|r: int| 0 <= r < upto ==> #[trigger] first(sample, r) == second(sample, r),
    ensures
        row_rest(first, sample, upto) == row_rest(second, sample, upto),
    decreases upto,
{
    if upto > 0 {
        lemma_row_rest_agree(first, second, sample, upto - 1);
        assert(first(sample, upto - 1) == second(sample, upto - 1));
    }
}

/// A sink that holds anything has its write among what is left of its
/// sample.
pub proof fn lemma_row_rest_bears(
    slot: spec_fn(int, int) -> Seq<Seq<char>>,
    sample: int,
    upto: int,
    read: int,
) -> (i: int)
    requires
        0 <= read < upto,
        slot(sample, read).len() > 0,
    ensures
        0 <= i < row_rest(slot, sample, upto).len(),
        row_rest(slot, sample, upto)[i] == (sample, read, concat_texts(slot(sample, read))),
    decreases upto,
{
    if read == upto - 1 {
        row_rest(slot, sample, upto - 1).len() as int
    } else {
        lemma_row_rest_bears(slot, sample, upto - 1, read)
    }
}

/// A sink that holds anything has its write among what is left.
pub proof fn lemma_rest_writes_bears(
    slot: spec_fn(int, int) -> Seq<Seq<char>>,
    samples: int,
    reads: int,
    sample: int,
    read: int,
) -> (i: int)
    requires
        0 <= sample < samples,
        0 <= read < reads,
        slot(sample, read).len() > 0,
    ensures
        0 <= i < rest_writes(slot, samples, reads).len(),
        rest_writes(slot, samples, reads)[i] == (sample, read, concat_texts(slot(sample, read))),
    decreases samples,
{
    if sample == samples - 1 {
        let k = lemma_row_rest_bears(slot, sample, reads, read);
        rest_writes(slot, samples - 1, reads).len() + k
    } else {
        lemma_rest_writes_bears(slot, samples - 1, reads, sample, read)
    }
}

impl BatchWriter {
    /// Hands back what is gathered, joined sink by sink, for every sink
    /// that has anything, sample by sample and within a sample read by
    /// read, and leaves every sink empty.
    pub fn drain(&mut self) -> (rest: Vec<OutputRecord>)
        requires
            old(self).well_formed(),
        ensures
            final(self).well_formed(),
            final(self).samples() == old(self).samples(),
            final(self).reads == old(self).reads,
            forall|s: int, r: int|
                0 <= s < old(self).samples() && 0 <= r < old(self).reads
                    ==> (#[trigger] final(self).slot(s, r)).len() == 0,
            forall|s: int, r: int|
                0 <= s < old(self).samples() && 0 <= r < old(self).reads ==> #[trigger] sink_text(
                    record_views(rest@),
                    s,
                    r,
                ) == old(self).pending(s, r),
            forall|i: int|
                0 <= i < rest@.len() ==> {
                    &&& (#[trigger] rest@[i]).sample_id < old(self).samples()
                    &&& rest@[i].read_ordinal < old(self).reads
                    &&& old(self).slot(rest@[i].sample_id as int, rest@[i].read_ordinal as int).len()
                        > 0
                },
            forall|i: int, j: int|
                0 <= i < j < rest@.len() ==> sink_before(
                    (#[trigger] rest@[i]).sample_id as int,
                    rest@[i].read_ordinal as int,
                    (#[trigger] rest@[j]).sample_id as int,
                    rest@[j].read_ordinal as int,
                ),
            record_views(rest@) == rest_writes(
                |s: int, r: int| old(self).slot(s, r),
                old(self).samples(),
                old(self).reads as int,
            ),
            forall|s: int, r: int|
                0 <= s < old(self).samples() && 0 <= r < old(self).reads && (#[trigger] old(
                    self,
                ).slot(s, r)).len() > 0 ==> exists|i: int|
                    0 <= i < rest@.len() && (#[trigger] rest@[i])@ == (
                        s,
                        r,
                        old(self).pending(s, r),
                    ),
    {
        let samples = self.buffers.len();
        let reads = self.reads;
        let ghost held = |a: int, b: int| old(self).slot(a, b);
        let mut rest: Vec<OutputRecord> = Vec::new();
        let mut s: usize = 0;
        proof {
            assert(record_views(rest@) =~= rest_writes(held, 0, reads as int));
        }
        while s < samples
            invariant
                s <= samples,
                held == |a: int, b: int| old(self).slot(a, b),
                record_views(rest@) == rest_writes(held, s as int, reads as int),
                samples == old(self).samples(),
                reads == old(self).reads,
                self.reads == reads,
                self.buffers@.len() == samples,
                old(self).well_formed(),
                forall|a: int| 0 <= a < samples ==> (#[trigger] self.buffers@[a])@.len() == reads,
                forall|a: int, b: int|
                    0 <= a < samples && 0 <= b < reads ==> #[trigger] self.slot(a, b)
                        == if sink_before(a, b, s as int, 0) {
                        Seq::<Seq<char>>::empty()
                    } else {
                        old(self).slot(a, b)
                    },
                forall|a: int, b: int|
                    0 <= a < samples && 0 <= b < reads ==> #[trigger] sink_text(
                        record_views(rest@),
                        a,
                        b,
                    ) == if sink_before(a, b, s as int, 0) {
                        old(self).pending(a, b)
                    } else {
                        Seq::<char>::empty()
                    },
                forall|i: int|
                    0 <= i < rest@.len() ==> {
                        &&& (#[trigger] rest@[i]).sample_id < samples
                        &&& rest@[i].read_ordinal < reads
                        &&& old(self).slot(
                            rest@[i].sample_id as int,
                            rest@[i].read_ordinal as int,
                        ).len() > 0
                        &&& sink_before(
                            rest@[i].sample_id as int,
                            rest@[i].read_ordinal as int,
                            s as int,
                            0,
                        )
                    },
                forall|i: int, j: int|
                    0 <= i < j < rest@.len() ==> sink_before(
                        (#[trigger] rest@[i]).sample_id as int,
                        rest@[i].read_ordinal as int,
                        (#[trigger] rest@[j]).sample_id as int,
                        rest@[j].read_ordinal as int,
                    ),
            decreases samples - s,
        {
            let mut r: usize = 0;
            proof {
                assert(record_views(rest@) =~= rest_writes(held, s as int, reads as int) + row_rest(
                    held,
                    s as int,
                    0,
                ));
            }
            while r < reads
                invariant
                    r <= reads,
                    s < samples,
                    held == |a: int, b: int| old(self).slot(a, b),
                    record_views(rest@) == rest_writes(held, s as int, reads as int) + row_rest(
                        held,
                        s as int,
                        r as int,
                    ),
                    samples == old(self).samples(),
                    reads == old(self).reads,
                    self.reads == reads,
                    self.buffers@.len() == samples,
                    old(self).well_formed(),
                    forall|a: int| 0 <= a < samples ==> (#[trigger] self.buffers@[a])@.len() == reads,
                    forall|a: int, b: int|
                        0 <= a < samples && 0 <= b < reads ==> #[trigger] self.slot(a, b)
                            == if sink_before(a, b, s as int, r as int) {
                            Seq::<Seq<char>>::empty()
                        } else {
                            old(self).slot(a, b)
                        },
                    forall|a: int, b: int|
                        0 <= a < samples && 0 <= b < reads ==> #[trigger] sink_text(
                            record_views(rest@),
                            a,
                            b,
                        ) == if sink_before(a, b, s as int, r as int) {
                            old(self).pending(a, b)
                        } else {
                            Seq::<char>::empty()
                        },
                    forall|i: int|
                        0 <= i < rest@.len() ==> {
                            &&& (#[trigger] rest@[i]).sample_id < samples
                            &&& rest@[i].read_ordinal < reads
                            &&& old(self).slot(
                                rest@[i].sample_id as int,
                                rest@[i].read_ordinal as int,
                            ).len() > 0
                            &&& sink_before(
                                rest@[i].sample_id as int,
                                rest@[i].read_ordinal as int,
                                s as int,
                                r as int,
                            )
                        },
                    forall|i: int, j: int|
                        0 <= i < j < rest@.len() ==> sink_before(
                            (#[trigger] rest@[i]).sample_id as int,
                            rest@[i].read_ordinal as int,
                            (#[trigger] rest@[j]).sample_id as int,
                            rest@[j].read_ordinal as int,
                        ),
                decreases reads - r,
            {
                let ghost slots_before = *self;
                let ghost rest_before = rest@;
                assert(self.slot(s as int, r as int) == old(self).slot(s as int, r as int));
                if self.buffers[s][r].len() > 0 {
                    let data = join_texts(&self.buffers[s][r]);
                    self.buffers[s][r].clear();
                    let record = OutputRecord { sample_id: s, read_ordinal: r, text: data };
                    rest.push(record);
                    proof {
                        assert(record_views(rest@) =~= record_views(rest_before).push(record@));
                        assert(held(s as int, r as int) == old(self).slot(s as int, r as int));
                        assert(record@ == (s as int, r as int, concat_texts(held(s as int, r as int))));
                        assert(record_views(rest@) =~= rest_writes(held, s as int, reads as int)
                            + row_rest(held, s as int, r + 1));
                        assert forall|a: int, b: int|
                            0 <= a < samples && 0 <= b < reads implies #[trigger] sink_text(
                            record_views(rest@),
                            a,
                            b,
                        ) == if sink_before(a, b, s as int, r + 1) {
                            old(self).pending(a, b)
                        } else {
                            Seq::<char>::empty()
                        } by {
                            lemma_sink_text_push(record_views(rest_before), record@, a, b);
                            assert(sink_text(record_views(rest_before), a, b) == if sink_before(
                                a,
                                b,
                                s as int,
                                r as int,
                            ) {
                                old(self).pending(a, b)
                            } else {
                                Seq::<char>::empty()
                            });
                            if a == s && b == r {
                                assert(Seq::<char>::empty() + record@.2 =~= record@.2);
                            }
                        }
                    }
                } else {
                    proof {
                        assert(old(self).slot(s as int, r as int) =~= Seq::<Seq<char>>::empty());
                        assert(held(s as int, r as int) == old(self).slot(s as int, r as int));
                        assert(row_rest(held, s as int, r + 1) == row_rest(held, s as int, r as int));
                        assert forall|a: int, b: int|
                            0 <= a < samples && 0 <= b < reads implies #[trigger] sink_text(
                            record_views(rest@),
                            a,
                            b,
                        ) == if sink_before(a, b, s as int, r + 1) {
                            old(self).pending(a, b)
                        } else {
                            Seq::<char>::empty()
                        } by {
                            assert(sink_text(record_views(rest_before), a, b) == if sink_before(
                                a,
                                b,
                                s as int,
                                r as int,
                            ) {
                                old(self).pending(a, b)
                            } else {
                                Seq::<char>::empty()
                            });
                        }
                    }
                }
                proof {
                    assert forall|a: int, b: int|
                        0 <= a < samples && 0 <= b < reads implies #[trigger] self.slot(a, b)
                        == if sink_before(a, b, s as int, r + 1) {
                        Seq::<Seq<char>>::empty()
                    } else {
                        old(self).slot(a, b)
                    } by {
                        assert(slots_before.buffers@[a]@.len() == reads);
                        assert(slots_before.slot(a, b) == if sink_before(a, b, s as int, r as int) {
                            Seq::<Seq<char>>::empty()
                        } else {
                            old(self).slot(a, b)
                        });
                        if a == s && b == r {
                            assert(self.slot(a, b) =~= Seq::<Seq<char>>::empty());
                        } else {
                            assert(self.slot(a, b) == slots_before.slot(a, b));
                        }
                    }
                }
                r = r + 1;
            }
            proof {
                assert forall|a: int, b: int| 0 <= a < samples && 0 <= b < reads implies sink_before(
                    a,
                    b,
                    s as int,
                    r as int,
                ) == sink_before(a, b, s + 1, 0) by {}
            }
            s = s + 1;
        }
        proof {
            assert forall|a: int, b: int|
                0 <= a < old(self).samples() && 0 <= b < old(self).reads && (#[trigger] old(
                    self,
                ).slot(a, b)).len() > 0 implies exists|i: int|
                0 <= i < rest@.len() && (#[trigger] rest@[i])@ == (a, b, old(self).pending(a, b)) by {
                assert(held(a, b) == old(self).slot(a, b));
                let i = lemma_rest_writes_bears(held, samples as int, reads as int, a, b);
                assert(record_views(rest@)[i] == rest@[i]@);
            }
        }
        rest
    }
}

/// What the sinks hold and which batches are handed on, one record
/// further.
pub proof fn lemma_stage_step(records: Seq<RecordModel>, record: RecordModel, sample: int, read: int)
    ensures
        gathered(records.push(record), sample, read) == if record.0 == sample && record.1 == read {
            if gathered(records, sample, read).len() + 1 >= BATCH_SIZE {
                Seq::<Seq<char>>::empty()
            } else {
                gathered(records, sample, read).push(record.2)
            }
        } else {
            gathered(records, sample, read)
        },
        batch_writes(records.push(record)) == if gathered(records, record.0, record.1).len() + 1
            >= BATCH_SIZE {
            batch_writes(records).push(
                (
                    record.0,
                    record.1,
                    concat_texts(gathered(records, record.0, record.1).push(record.2)),
                ),
            )
        } else {
            batch_writes(records)
        },
{
    assert(records.push(record).drop_last() =~= records);
}

/// Runs the writer stage over `records`: gathers them sink by sink, hands
/// each full batch on as it fills, and at the end what is left, sink by
/// sink. Every sink gets the texts of its records, each once, in the
/// order of `records`.
pub fn aggregate(records: &Vec<OutputRecord>, samples: usize, reads: usize) -> (writes: Vec<
    OutputRecord,
>)
    requires
        forall|i: int|
            0 <= i < records@.len() ==> (#[trigger] records@[i]).sample_id < samples
                && records@[i].read_ordinal < reads,
    ensures
        record_views(writes@) == stage_writes(record_views(records@), samples as int, reads as int),
        forall|s: int, r: int|
            0 <= s < samples && 0 <= r < reads ==> #[trigger] sink_text(record_views(writes@), s, r)
                == sink_text(record_views(records@), s, r),
        forall|i: int|
            0 <= i < writes@.len() ==> (#[trigger] writes@[i]).sample_id < samples
                && writes@[i].read_ordinal < reads,
{
    let mut writer = BatchWriter::new(samples, reads);
    let mut writes: Vec<OutputRecord> = Vec::new();
    let ghost input = record_views(records@);
    let mut i: usize = 0;
    proof {
        assert(record_views(writes@) =~= batch_writes(input.take(0)));
        assert forall|s: int, r: int| 0 <= s < samples && 0 <= r < reads implies #[trigger] writer.slot(
            s,
            r,
        ) == gathered(input.take(0), s, r) by {
            assert(writer.slot(s, r) =~= Seq::<Seq<char>>::empty());
        }
    }
    while i < records.len()
        invariant
            i <= records.len(),
            input == record_views(records@),
            record_views(writes@) == batch_writes(input.take(i as int)),
            forall|s: int, r: int|
                0 <= s < samples && 0 <= r < reads ==> #[trigger] writer.slot(s, r) == gathered(
                    input.take(i as int),
                    s,
                    r,
                ),
            writer.well_formed(),
            writer.samples() == samples,
            writer.reads == reads,
            forall|k: int|
                0 <= k < records@.len() ==> (#[trigger] records@[k]).sample_id < samples
                    && records@[k].read_ordinal < reads,
            forall|k: int|
                0 <= k < writes@.len() ==> (#[trigger] writes@[k]).sample_id < samples
                    && writes@[k].read_ordinal < reads,
            forall|s: int, r: int|
                0 <= s < samples && 0 <= r < reads ==> #[trigger] sink_text(
                    input.take(i as int),
                    s,
                    r,
                ) == sink_text(record_views(writes@), s, r) + writer.pending(s, r),
        decreases records.len() - i,
    {
        let record = &records[i];
        let sample = record.sample_id;
        let read = record.read_ordinal;
        let ghost writer_before = writer;
        let ghost writes_before = writes@;
        let batch = writer.push(sample, read, record.text.clone());
        let ghost full = batch is Some;
        let ghost joined = if batch is Some {
            batch->0@
        } else {
            Seq::<char>::empty()
        };
        proof {
            assert(input.take(i + 1) =~= input.take(i as int).push(record@));
            let slot = writer_before.slot(sample as int, read as int);
            assert(slot.push(record.text@).drop_last() =~= slot);
        }
        match batch {
            Some(data) => {
                let write = OutputRecord { sample_id: sample, read_ordinal: read, text: data };
                writes.push(write);
                proof {
                    assert(record_views(writes@) =~= record_views(writes_before).push(write@));
                    assert forall|s: int, r: int|
                        0 <= s < samples && 0 <= r < reads implies #[trigger] sink_text(
                        input.take(i + 1),
                        s,
                        r,
                    ) == sink_text(record_views(writes@), s, r) + writer.pending(s, r) by {
                        lemma_sink_text_push(input.take(i as int), record@, s, r);
                        lemma_sink_text_push(record_views(writes_before), write@, s, r);
                        assert(sink_text(input.take(i as int), s, r) == sink_text(
                            record_views(writes_before),
                            s,
                            r,
                        ) + writer_before.pending(s, r));
                        if s == sample && r == read {
                            assert(writer.slot(s, r) =~= Seq::<Seq<char>>::empty());
                            assert(sink_text(input.take(i + 1), s, r) =~= sink_text(
                                record_views(writes@),
                                s,
                                r,
                            ) + writer.pending(s, r));
                        } else {
                            assert(writer.slot(s, r) == writer_before.slot(s, r));
                        }
                    }
                }
            },
            None => {
                proof {
                    assert forall|s: int, r: int|
                        0 <= s < samples && 0 <= r < reads implies #[trigger] sink_text(
                        input.take(i + 1),
                        s,
                        r,
                    ) == sink_text(record_views(writes@), s, r) + writer.pending(s, r) by {
                        lemma_sink_text_push(input.take(i as int), record@, s, r);
                        assert(sink_text(input.take(i as int), s, r) == sink_text(
                            record_views(writes_before),
                            s,
                            r,
                        ) + writer_before.pending(s, r));
                        if s == sample && r == read {
                            assert(sink_text(input.take(i + 1), s, r) =~= sink_text(
                                record_views(writes@),
                                s,
                                r,
                            ) + writer.pending(s, r));
                        } else {
                            assert(writer.slot(s, r) == writer_before.slot(s, r));
                        }
                    }
                }
            },
        }
        proof {
            let taken = input.take(i as int);
            let slot = writer_before.slot(sample as int, read as int);
            assert(slot == gathered(taken, sample as int, read as int));
            lemma_stage_step(taken, record@, sample as int, read as int);
            assert forall|s: int, r: int| 0 <= s < samples && 0 <= r < reads implies #[trigger] writer.slot(
                s,
                r,
            ) == gathered(input.take(i + 1), s, r) by {
                lemma_stage_step(taken, record@, s, r);
                assert(writer_before.slot(s, r) == gathered(taken, s, r));
                if s == sample && r == read {
                    if full {
                        assert(writer.slot(s, r) =~= Seq::<Seq<char>>::empty());
                    }
                }
            }
            if full {
                assert(joined == concat_texts(slot.push(record@.2)));
                assert(record_views(writes@) =~= record_views(writes_before).push(
                    (sample as int, read as int, joined),
                ));
            } else {
                assert(record_views(writes@) =~= record_views(writes_before));
            }
        }
        i = i + 1;
    }
    let ghost writer_before = writer;
    let ghost writes_before = writes@;
    let mut rest = writer.drain();
    let ghost rest_records = rest@;
    writes.append(&mut rest);
    proof {
        assert(input.take(i as int) =~= input);
        assert(record_views(writes@) =~= record_views(writes_before) + record_views(rest_records));
        assert forall|s: int, r: int| 0 <= s < samples && 0 <= r < reads implies (
        #[trigger] writer_before.slot(s, r)) == gathered(input, s, r) by {
            assert(writer_before.slot(s, r) == gathered(input.take(i as int), s, r));
        }
        lemma_rest_writes_agree(
            |s: int, r: int| writer_before.slot(s, r),
            |s: int, r: int| gathered(input, s, r),
            samples as int,
            reads as int,
        );
        assert forall|s: int, r: int| 0 <= s < samples && 0 <= r < reads implies #[trigger] sink_text(
            record_views(writes@),
            s,
            r,
        ) == sink_text(input, s, r) by {
            lemma_sink_text_concat(record_views(writes_before), record_views(rest_records), s, r);
            assert(sink_text(input.take(i as int), s, r) == sink_text(
                record_views(writes_before),
                s,
                r,
            ) + writer_before.pending(s, r));
            assert(sink_text(record_views(rest_records), s, r) == writer_before.pending(s, r));
        }
    }
    writes
}

} // verus!
