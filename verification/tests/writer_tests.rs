use bcl_demux::demux::OutputRecord;
use bcl_demux::writer::{aggregate, join_texts, BatchWriter, BATCH_SIZE};

fn record(sample: usize, read: usize, text: &str) -> OutputRecord {
    OutputRecord { sample_id: sample, read_ordinal: read, text: text.to_string() }
}

fn sink(records: &[OutputRecord], sample: usize, read: usize) -> String {
    records
        .iter()
        .filter(|r| r.sample_id == sample && r.read_ordinal == read)
        .map(|r| r.text.as_str())
        .collect()
}

#[test]
fn join_puts_texts_one_after_the_other() {
    assert_eq!(join_texts(&vec![]), "");
    assert_eq!(join_texts(&vec!["a\n".to_string(), "".to_string(), "bc".to_string()]), "a\nbc");
}

#[test]
fn batch_is_handed_on_at_a_thousand_records() {
    assert_eq!(BATCH_SIZE, 1000);
    let mut writer = BatchWriter::new(2, 2);
    let mut expected = String::new();
    for i in 0..999 {
        let text = format!("r{}\n", i);
        expected.push_str(&text);
        assert_eq!(writer.push(1, 0, text), None);
    }
    assert_eq!(writer.buffers[1][0].len(), 999);
    expected.push_str("last\n");
    assert_eq!(writer.push(1, 0, "last\n".to_string()), Some(expected));
    assert!(writer.buffers[1][0].is_empty());
    assert_eq!(writer.push(1, 0, "next\n".to_string()), None);
    assert_eq!(writer.buffers[1][0], vec!["next\n".to_string()]);
}

#[test]
fn sinks_are_gathered_apart() {
    let mut writer = BatchWriter::new(2, 3);
    assert_eq!(writer.push(0, 0, "a".to_string()), None);
    assert_eq!(writer.push(1, 2, "b".to_string()), None);
    assert_eq!(writer.push(0, 0, "c".to_string()), None);
    assert_eq!(writer.buffers[0][0], vec!["a".to_string(), "c".to_string()]);
    assert_eq!(writer.buffers[1][2], vec!["b".to_string()]);
    assert!(writer.buffers[0][1].is_empty());
}

#[test]
fn drain_hands_on_what_is_left_sink_by_sink() {
    let mut writer = BatchWriter::new(2, 2);
    writer.push(1, 1, "x".to_string());
    writer.push(0, 1, "y".to_string());
    writer.push(1, 1, "z".to_string());
    let rest = writer.drain();
    let got: Vec<(usize, usize, String)> =
        rest.iter().map(|r| (r.sample_id, r.read_ordinal, r.text.clone())).collect();
    assert_eq!(got, vec![(0, 1, "y".to_string()), (1, 1, "xz".to_string())]);
    assert!(writer.drain().is_empty());
    assert!(writer.buffers.iter().all(|row| row.iter().all(|slot| slot.is_empty())));
}

#[test]
fn new_writer_has_nothing_to_drain() {
    let mut writer = BatchWriter::new(3, 4);
    assert_eq!(writer.buffers.len(), 3);
    assert!(writer.buffers.iter().all(|row| row.len() == 4));
    assert!(writer.drain().is_empty());
    let mut none = BatchWriter::new(0, 4);
    assert!(none.drain().is_empty());
}

#[test]
fn aggregate_gives_every_sink_its_records_once_and_in_order() {
    let mut records = Vec::new();
    for i in 0..2500 {
        records.push(record(i % 3, (i / 3) % 2, &format!("rec{}\n", i)));
    }
    let writes = aggregate(&records, 3, 2);
    for sample in 0..3 {
        for read in 0..2 {
            assert_eq!(sink(&writes, sample, read), sink(&records, sample, read));
        }
    }
    let total: usize = writes.iter().map(|w| w.text.len()).sum();
    let given: usize = records.iter().map(|r| r.text.len()).sum();
    assert_eq!(total, given);
}

#[test]
fn aggregate_writes_full_batches_first_and_the_rest_at_the_end() {
    let mut records = Vec::new();
    for i in 0..1001 {
        records.push(record(0, 0, &format!("{},", i)));
    }
    records.push(record(1, 0, "other"));
    let writes = aggregate(&records, 2, 1);
    assert_eq!(writes.len(), 3);
    assert_eq!((writes[0].sample_id, writes[0].read_ordinal), (0, 0));
    assert!(writes[0].text.starts_with("0,1,2,"));
    assert!(writes[0].text.ends_with("998,999,"));
    assert_eq!((writes[1].sample_id, writes[1].text.as_str()), (0, "1000,"));
    assert_eq!((writes[2].sample_id, writes[2].text.as_str()), (1, "other"));
}

#[test]
fn aggregate_of_nothing_writes_nothing() {
    assert!(aggregate(&vec![], 2, 2).is_empty());
}

#[test]
fn drain_writes_a_sink_whose_texts_are_all_empty() {
    let mut writer = BatchWriter::new(2, 1);
    assert_eq!(writer.push(1, 0, String::new()), None);
    assert_eq!(writer.push(1, 0, String::new()), None);
    let rest = writer.drain();
    assert_eq!(rest.len(), 1);
    assert_eq!((rest[0].sample_id, rest[0].read_ordinal, rest[0].text.as_str()), (1, 0, ""));
}

#[test]
fn aggregate_hands_batches_on_in_the_order_they_fill() {
    let mut records = Vec::new();
    for i in 0..1000 {
        records.push(record(1, 1, &format!("b{};", i)));
        records.push(record(0, 0, &format!("a{};", i)));
    }
    records.push(record(0, 0, "tail-a"));
    records.push(record(0, 1, "tail-c"));
    records.push(record(1, 1, "tail-b"));
    let writes = aggregate(&records, 2, 2);
    let keys: Vec<(usize, usize)> = writes.iter().map(|w| (w.sample_id, w.read_ordinal)).collect();
    assert_eq!(keys, vec![(1, 1), (0, 0), (0, 0), (0, 1), (1, 1)]);
    let first: String = (0..1000).map(|i| format!("b{};", i)).collect();
    let second: String = (0..1000).map(|i| format!("a{};", i)).collect();
    assert_eq!(writes[0].text, first);
    assert_eq!(writes[1].text, second);
    assert_eq!(writes[2].text, "tail-a");
    assert_eq!(writes[3].text, "tail-c");
    assert_eq!(writes[4].text, "tail-b");
}

#[test]
fn aggregate_of_exactly_one_batch_leaves_nothing_for_the_end() {
    let records: Vec<OutputRecord> = (0..1000).map(|_| record(0, 0, "x")).collect();
    let writes = aggregate(&records, 1, 1);
    assert_eq!(writes.len(), 1);
    assert_eq!(writes[0].text.len(), 1000);
    let fewer: Vec<OutputRecord> = (0..999).map(|_| record(0, 0, "x")).collect();
    let writes = aggregate(&fewer, 1, 1);
    assert_eq!(writes.len(), 1);
    assert_eq!(writes[0].text.len(), 999);
    let more: Vec<OutputRecord> = (0..2001).map(|_| record(0, 0, "x")).collect();
    let writes = aggregate(&more, 1, 1);
    let lengths: Vec<usize> = writes.iter().map(|w| w.text.len()).collect();
    assert_eq!(lengths, vec![1000, 1000, 1]);
}
