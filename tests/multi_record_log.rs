use recordlog::mem::MemQueues;
use recordlog::multi_record_log::{ApplyError, MultiRecordLog, ReadRecordError, SegmentFile};
use recordlog::record::{decode, encode, DecodeError, Record};
use recordlog::segment_name::{parse_segment_name, segment_name};

/// An in-memory stand-in for the segment files: the log's bytes per segment.
struct Files {
    files: Vec<SegmentFile>,
}

impl Files {
    fn new() -> Files {
        Files { files: vec![SegmentFile { first_position: 1, bytes: Vec::new() }] }
    }

    fn write(&mut self, log: &mut MultiRecordLog, record: Record, frame: Vec<u8>) {
        self.files.last_mut().unwrap().bytes.extend_from_slice(&frame);
        let action = log.apply(&record, frame.len() as u64).unwrap();
        for first in action.delete {
            self.files.retain(|f| f.first_position != first);
        }
        if let Some(first) = action.roll_to {
            self.files.push(SegmentFile { first_position: first, bytes: Vec::new() });
        }
    }

    fn append(&mut self, log: &mut MultiRecordLog, queue: &str, payload: &[u8]) -> u64 {
        let (record, frame) = log.prepare_append(queue, payload).unwrap();
        self.write(log, record, frame);
        log.last_position()
    }

    fn truncate(&mut self, log: &mut MultiRecordLog, queue: &str, position: u64) {
        let (record, frame) = log.prepare_truncate(queue, position).unwrap();
        self.write(log, record, frame);
    }

    fn copy(&self) -> Vec<SegmentFile> {
        self.files
            .iter()
            .map(|f| SegmentFile { first_position: f.first_position, bytes: f.bytes.clone() })
            .collect()
    }
}

fn scenario_one() -> (MultiRecordLog, Files) {
    let mut log = MultiRecordLog::new(1 << 20);
    let mut files = Files::new();
    assert_eq!(files.append(&mut log, "q1", b"a"), 1);
    assert_eq!(files.append(&mut log, "q1", b"b"), 2);
    assert_eq!(files.append(&mut log, "q2", b"c"), 3);
    (log, files)
}

#[test]
fn positions_are_global_and_reads_find_records() {
    let (log, _) = scenario_one();
    assert_eq!(log.get_after("q1", 1), Some((1, &b"a"[..])));
    assert_eq!(log.get_after("q1", 2), Some((2, &b"b"[..])));
    assert_eq!(log.get_after("q2", 1), Some((3, &b"c"[..])));
    assert_eq!(log.get_after("q1", 0), Some((1, &b"a"[..])));
    assert_eq!(log.get_after("q1", 3), None);
    assert_eq!(log.get_after("q3", 0), None);
}

#[test]
fn truncate_hides_records_below_threshold() {
    let (mut log, mut files) = scenario_one();
    files.truncate(&mut log, "q1", 2);
    assert_eq!(log.get_after("q1", 1), Some((2, &b"b"[..])));
    assert_eq!(log.get_after("q1", 2), Some((2, &b"b"[..])));
    assert_eq!(log.get_after("q1", 3), None);
    assert_eq!(log.get_after("q1", 0), log.get_after("q1", 2));
    assert_eq!(log.get_after("q2", 1), Some((3, &b"c"[..])));
    // A truncation takes a position of its own.
    assert_eq!(log.last_position(), 4);
    assert_eq!(files.append(&mut log, "q1", b"d"), 5);
}

#[test]
fn drained_queue_is_removed_like_an_unknown_one() {
    let (mut log, mut files) = scenario_one();
    assert!(log.contains_queue("q1"));
    files.truncate(&mut log, "q1", 10);
    assert!(!log.contains_queue("q1"));
    assert!(!log.contains_queue("never"));
    assert_eq!(log.get_after("q1", 0), None);
    assert_eq!(log.get_after("never", 0), None);
    // Truncating a queue that is not there changes nothing.
    files.truncate(&mut log, "never", 10);
    assert_eq!(log.get_after("q2", 0), Some((3, &b"c"[..])));
    // A drained queue comes back with its next record; the two truncations
    // took positions 4 and 5.
    assert_eq!(files.append(&mut log, "q1", b"e"), 6);
    assert_eq!(log.get_after("q1", 0), Some((6, &b"e"[..])));
}

#[test]
fn rolled_segments_are_reclaimed_once_every_queue_passed_them() {
    // Each added frame here is 25 bytes and each truncation 24; a segment
    // rolls once it holds more than 49 bytes.
    let mut log = MultiRecordLog::new(49);
    let mut files = Files::new();
    for i in 0..6u8 {
        let queue = if i % 2 == 0 { "a" } else { "b" };
        files.append(&mut log, queue, &[i]);
    }
    assert_eq!(log.segment_positions(), vec![1, 3, 5, 7]);
    assert_eq!(log.num_files(), 4);
    assert_eq!(files.files.len(), 4);
    // Queue "a" alone passing the first segment reclaims nothing: "b" still
    // holds position 2 there.
    files.truncate(&mut log, "a", 3);
    assert_eq!(log.num_files(), 4);
    // Both queues past the first segment's last position (2): one file goes.
    files.truncate(&mut log, "b", 3);
    assert_eq!(log.num_files(), 3);
    assert_eq!(log.segment_positions(), vec![3, 5, 7]);
    // Past the second segment too. The active segment, now holding three
    // truncations, rolls to position 10 on the way.
    files.truncate(&mut log, "a", 5);
    assert_eq!(log.segment_positions(), vec![3, 5, 7, 10]);
    files.truncate(&mut log, "b", 5);
    assert_eq!(log.segment_positions(), vec![5, 7, 10]);
    assert_eq!(log.num_files(), 3);
    assert_eq!(files.files.len(), 3);
    // Truncating again at the same threshold or below moves no minimum:
    // nothing goes (the active segment fills up and rolls to 13).
    files.truncate(&mut log, "b", 5);
    files.truncate(&mut log, "b", 0);
    assert_eq!(log.segment_positions(), vec![5, 7, 10, 13]);
    assert_eq!(log.get_after("a", 0), Some((5, &[4u8][..])));
    assert_eq!(log.get_after("b", 0), Some((6, &[5u8][..])));
}

#[test]
fn draining_every_queue_reclaims_every_sealed_segment() {
    let mut log = MultiRecordLog::new(49);
    let mut files = Files::new();
    for i in 0..5u8 {
        files.append(&mut log, "a", &[i]);
    }
    assert_eq!(log.num_files(), 3);
    files.truncate(&mut log, "a", 100);
    assert_eq!(log.num_files(), 1);
    assert_eq!(log.segment_positions(), vec![5]);
}

#[test]
fn reopen_rebuilds_the_same_index() {
    let mut log = MultiRecordLog::new(49);
    let mut files = Files::new();
    for i in 0..7u8 {
        let queue = if i % 3 == 0 { "x" } else { "y" };
        files.append(&mut log, queue, &[i, i]);
    }
    files.truncate(&mut log, "x", 4);
    files.truncate(&mut log, "y", 3);
    let reopened = MultiRecordLog::open(&files.copy(), 49).unwrap();
    assert_eq!(reopened.last_position(), log.last_position());
    assert_eq!(reopened.segment_positions(), log.segment_positions());
    assert_eq!(reopened.active_segment_len(), log.active_segment_len());
    for queue in ["x", "y", "z"] {
        for p in 0..10u64 {
            assert_eq!(reopened.get_after(queue, p), log.get_after(queue, p));
        }
    }
    // Opening twice with nothing written in between gives the same state.
    let again = MultiRecordLog::open(&files.copy(), 49).unwrap();
    for queue in ["x", "y"] {
        for p in 0..10u64 {
            assert_eq!(again.get_after(queue, p), reopened.get_after(queue, p));
        }
    }
    assert_eq!(again.last_position(), reopened.last_position());
}

#[test]
fn torn_tail_is_dropped_and_appends_continue() {
    let (mut log, mut files) = scenario_one();
    let before = files.files[0].bytes.len();
    files.append(&mut log, "q2", b"partial");
    // Cut the last frame in the middle.
    files.files[0].bytes.truncate(before + 10);
    let mut reopened = MultiRecordLog::open(&files.copy(), 1 << 20).unwrap();
    assert_eq!(reopened.last_position(), 3);
    assert_eq!(reopened.active_segment_len(), before as u64);
    assert_eq!(reopened.get_after("q2", 4), None);
    assert_eq!(reopened.get_after("q2", 0), Some((3, &b"c"[..])));
    files.files[0].bytes.truncate(before);
    assert_eq!(files.append(&mut reopened, "q2", b"d"), 4);
    assert_eq!(reopened.get_after("q2", 4), Some((4, &b"d"[..])));
}

#[test]
fn corrupt_middle_fails_to_open() {
    let (_, files) = scenario_one();
    let mut copy = files.copy();
    // Flip a payload byte of the first frame: its checksum no longer matches
    // and more frames follow.
    copy[0].bytes[24] ^= 0xff;
    assert_eq!(MultiRecordLog::open(&copy, 1 << 20).err(), Some(ReadRecordError::CorruptLog));
    // A torn write in a segment that is not the last one is corruption too.
    let mut copy = files.copy();
    copy[0].bytes.truncate(30);
    copy.push(SegmentFile { first_position: 4, bytes: Vec::new() });
    assert_eq!(MultiRecordLog::open(&copy, 1 << 20).err(), Some(ReadRecordError::CorruptLog));
    // Segments out of order.
    let copy = vec![
        SegmentFile { first_position: 5, bytes: Vec::new() },
        SegmentFile { first_position: 2, bytes: Vec::new() },
    ];
    assert_eq!(MultiRecordLog::open(&copy, 1 << 20).err(), Some(ReadRecordError::CorruptLog));
}

#[test]
fn open_without_files_is_a_new_log() {
    let log = MultiRecordLog::open(&Vec::new(), 100).unwrap();
    assert_eq!(log.last_position(), 0);
    assert_eq!(log.segment_positions(), vec![1]);
    assert_eq!(log.num_files(), 1);
}

#[test]
fn reopened_empty_active_segment_keeps_positions() {
    let mut log = MultiRecordLog::new(24);
    let mut files = Files::new();
    files.append(&mut log, "a", b"1");
    assert_eq!(log.segment_positions(), vec![1, 2]);
    files.truncate(&mut log, "a", 2);
    // The sealed segment goes; the empty active one does not roll again.
    assert_eq!(log.segment_positions(), vec![2]);
    let reopened = MultiRecordLog::open(&files.copy(), 24).unwrap();
    assert_eq!(reopened.last_position(), 2);
    let (record, _) = reopened.prepare_append("a", b"2").unwrap();
    match record {
        Record::AddRecord { position, .. } => assert_eq!(position, 3),
        _ => panic!("an added record was expected"),
    }
}

#[test]
fn out_of_order_record_is_refused() {
    let (mut log, _) = scenario_one();
    let record = Record::AddRecord { position: 2, queue: b"q1".to_vec(), payload: b"z".to_vec() };
    assert_eq!(log.apply(&record, 25).err(), Some(ApplyError::OutOfOrder));
    assert_eq!(log.last_position(), 3);
}

#[test]
fn frame_layout_is_exact() {
    let record = Record::AddRecord { position: 0x0102, queue: b"q".to_vec(), payload: b"xy".to_vec() };
    let frame = encode(&record);
    assert_eq!(frame.len(), 26);
    assert_eq!(&frame[0..4], &[26, 0, 0, 0]);
    assert_eq!(frame[8], 0);
    assert_eq!(&frame[9..11], &[1, 0]);
    assert_eq!(frame[11], b'q');
    assert_eq!(&frame[12..20], &[2, 1, 0, 0, 0, 0, 0, 0]);
    assert_eq!(&frame[20..24], &[2, 0, 0, 0]);
    assert_eq!(&frame[24..26], b"xy");
    // FNV-1a over the empty sequence is its seed.
    assert_eq!(recordlog::record::checksum_of_range(&[], 0, 0), 0x811c_9dc5);
    assert_eq!(recordlog::record::checksum_of_range(b"a", 0, 1), 0xe40c_292c);
    let truncate = encode(&Record::Truncate { position: 7, queue: b"q".to_vec() });
    assert_eq!(truncate.len(), 24);
    assert_eq!(truncate[8], 1);
}

#[test]
fn decode_reads_back_and_reports_errors() {
    let record = Record::AddRecord { position: 9, queue: b"queue".to_vec(), payload: b"data".to_vec() };
    let mut bytes = vec![0xaa];
    bytes.extend(encode(&record));
    match decode(&bytes, 1) {
        Ok((Record::AddRecord { position, queue, payload }, n)) => {
            assert_eq!(position, 9);
            assert_eq!(queue, b"queue".to_vec());
            assert_eq!(payload, b"data".to_vec());
            assert_eq!(n, bytes.len() - 1);
        }
        _ => panic!("the record was expected"),
    }
    assert_eq!(decode(&bytes, 1 + 3).err(), Some(DecodeError::TruncatedFrame));
    assert_eq!(decode(&bytes[..bytes.len() - 1], 1).err(), Some(DecodeError::TruncatedFrame));
    let mut flipped = bytes.clone();
    let last = flipped.len() - 1;
    flipped[last] ^= 1;
    assert_eq!(decode(&flipped, 1).err(), Some(DecodeError::ChecksumMismatch));
    // A kind byte that is neither record, with a checksum that matches.
    let mut odd = encode(&Record::Truncate { position: 1, queue: b"q".to_vec() });
    odd[8] = 7;
    let sum = recordlog::record::checksum_of_range(&odd, 8, odd.len());
    odd[4..8].copy_from_slice(&sum.to_le_bytes());
    assert_eq!(decode(&odd, 0).err(), Some(DecodeError::Malformed));
}

#[test]
fn index_truncate_reports_a_changed_minimum() {
    let mut queues = MemQueues::new();
    queues.add_record(b"a", 1, b"x");
    queues.add_record(b"b", 2, b"y");
    queues.add_record(b"a", 3, b"z");
    assert_eq!(queues.min_position(), Some(1));
    // Dropping "b"'s records below 1 changes nothing.
    assert_eq!(queues.truncate(b"b", 1), None);
    // "a" now starts at 3, "b" at 2: the minimum moves to 2.
    assert_eq!(queues.truncate(b"a", 2), Some(2));
    assert_eq!(queues.get_after(b"a", 0), Some((3, &b"z"[..])));
    // Draining "b" moves the minimum to 3.
    assert_eq!(queues.truncate(b"b", 3), Some(3));
    assert_eq!(queues.num_queues(), 1);
    // Draining everything leaves no minimum to report.
    assert_eq!(queues.truncate(b"a", 10), None);
    assert_eq!(queues.min_position(), None);
    assert!(!queues.contains_queue(b"a"));
}

#[test]
fn lowest_retained_position_never_decreases() {
    let mut queues = MemQueues::new();
    let mut floors: Vec<u64> = Vec::new();
    let mut last: u64 = 0;
    let floor = |q: &MemQueues, last: u64| q.min_position().unwrap_or(last + 1);
    floors.push(floor(&queues, last));
    for (queue, truncate_at) in [(&b"a"[..], 0u64), (b"b", 0), (b"a", 2), (b"c", 0), (b"b", 9), (b"a", 9), (b"c", 9)] {
        if truncate_at == 0 {
            last += 1;
            queues.add_record(queue, last, b"p");
        } else {
            queues.truncate(queue, truncate_at);
        }
        floors.push(floor(&queues, last));
    }
    assert_eq!(floors, vec![1, 1, 1, 2, 2, 3, 3, 4]);
    for pair in floors.windows(2) {
        assert!(pair[0] <= pair[1]);
    }
}

#[test]
fn segment_names_are_padded_decimal() {
    assert_eq!(segment_name(1), b"00000000000000000001".to_vec());
    assert_eq!(segment_name(1234), b"00000000000000001234".to_vec());
    assert_eq!(segment_name(u64::MAX), b"18446744073709551615".to_vec());
    assert_eq!(parse_segment_name(b"00000000000000001234"), Some(1234));
    assert_eq!(parse_segment_name(&segment_name(987_654_321)), Some(987_654_321));
    assert_eq!(parse_segment_name(b"18446744073709551615"), Some(u64::MAX));
    assert_eq!(parse_segment_name(b"18446744073709551616"), None);
    assert_eq!(parse_segment_name(b"1234"), None);
    assert_eq!(parse_segment_name(b"0000000000000000123x"), None);
    assert!(segment_name(99) < segment_name(100));
}

#[test]
fn names_too_long_for_a_frame_are_refused() {
    let (log, _) = scenario_one();
    let long = "q".repeat(0x1_0000);
    assert!(log.prepare_append(&long, b"x").is_none());
    assert!(log.prepare_truncate(&long, 1).is_none());
    let longest = "q".repeat(0xffff);
    assert!(log.prepare_truncate(&longest, 1).is_some());
}

#[test]
fn segment_rolls_only_past_the_threshold() {
    // One added frame of 25 bytes reaches a threshold of 25 without passing it.
    let mut log = MultiRecordLog::new(25);
    let mut files = Files::new();
    files.append(&mut log, "a", b"1");
    assert_eq!(log.num_files(), 1);
    assert_eq!(log.active_segment_len(), 25);
    files.append(&mut log, "a", b"2");
    assert_eq!(log.segment_positions(), vec![1, 3]);
    assert_eq!(log.active_segment_len(), 0);
}
