//! The log itself: it allocates positions, applies persisted records to the
//! index, replays segment contents on open, and keeps the list of segment
//! files, deciding when to start a new one and which old ones can go.
//!
//! Reading and writing files is left to the caller. A mutation is two steps:
//! `prepare_append` or `prepare_truncate` builds the record and its frame; once
//! the frame is durably written to the active segment, `apply` brings the
//! index up to date and says which files to create or delete.
use vstd::prelude::*;
use vstd::string::{StringSliceAdditionalSpecFns, StrSliceExecFns};
use crate::mem::{MemQueues, QueuesModel, add_spec, truncate_spec, min_retained, drop_below,
    records_of, lemma_drop_below_within, lemma_min_retained_exists, is_min_retained, queues_wf};
use crate::record::{Record, RecordModel, DecodeError, decode, encode, frame_of, starts_with_frame,
    is_truncated_frame, has_checksum_mismatch, u32_at, read_u32, lemma_frame_layout, lemma_frame_unique,
    lemma_frame_fields, lemma_u32_in};

verus! {

/// The logical state of a log: its queues and the last position handed out.
pub struct LogModel {
    pub queues: QueuesModel,
    pub last_position: u64,
}

/// Every retained record lies at or below the last position.
pub open spec fn positions_bounded(m: LogModel) -> bool {
    forall|k: Seq<u8>, i: int| #[trigger] m.queues.contains_key(k) && 0 <= i < m.queues[k].len()
        ==> #[trigger] m.queues[k][i].0 <= m.last_position
}

/// A record can be applied: an added record comes after every position so
/// far, and below the largest `u64`, which is never handed out; a truncation
/// takes the next position, which must also stay below it.
pub open spec fn applicable(m: LogModel, r: RecordModel) -> bool {
    match r {
        RecordModel::Add { position, .. } => m.last_position < position < u64::MAX,
        RecordModel::Truncate { .. } => m.last_position + 1 < u64::MAX,
    }
}

/// The state after applying one record. Every record takes one position: an
/// added record the one it carries, a truncation the next one (the position
/// it carries is its threshold).
pub open spec fn apply_spec(m: LogModel, r: RecordModel) -> LogModel {
    match r {
        RecordModel::Add { position, queue, payload } =>
            LogModel { queues: add_spec(m.queues, queue, position, payload), last_position: position },
        RecordModel::Truncate { position, queue } =>
            LogModel { queues: truncate_spec(m.queues, queue, position), last_position: (m.last_position + 1) as u64 },
    }
}

/// The state after applying `rs` in order, or `None` if one of them cannot be
/// applied where it stands.
pub open spec fn replay_spec(m: LogModel, rs: Seq<RecordModel>) -> Option<LogModel>
    decreases rs.len(),
{
    if rs.len() == 0 {
        Some(m)
    } else {
        match replay_spec(m, rs.drop_last()) {
            None => None,
            Some(p) => if applicable(p, rs.last()) {
                Some(apply_spec(p, rs.last()))
            } else {
                None
            },
        }
    }
}

/// The position below which no retained record lies: the lowest retained
/// position, or the next position to hand out when no queue holds a record.
pub open spec fn reclaim_floor(m: LogModel) -> int {
    match min_retained(m.queues) {
        Some(p) => p as int,
        None => m.last_position + 1,
    }
}

/// How a segment's bytes end.
#[derive(PartialEq, Eq, Structural, Debug, Clone, Copy)]
pub enum ScanEnd {
    /// Every byte belongs to a whole frame.
    Clean,
    /// The last frame was cut short or its checksum fails and it runs to the
    /// end: a write that was interrupted.
    Torn,
    /// Bytes that are no frame, followed by more bytes.
    Corrupt,
}

/// An interrupted write at the front of `s`: a cut-off frame, or one whose
/// checksum fails and which ends exactly where `s` does.
pub open spec fn is_torn(s: Seq<u8>) -> bool {
    is_truncated_frame(s) || (has_checksum_mismatch(s) && u32_at(s, 0) == s.len())
}

/// The records of a segment's bytes in order, how many bytes they take, and
/// how the bytes end.
pub open spec fn scan_spec(s: Seq<u8>) -> (Seq<RecordModel>, int, ScanEnd)
    decreases s.len(),
{
    if s.len() == 0 {
        (Seq::empty(), 0, ScanEnd::Clean)
    } else if exists|m: RecordModel| starts_with_frame(s, m) {
        let m = choose|m: RecordModel| starts_with_frame(s, m);
        let n = frame_of(m).len() as int;
        if 0 < n <= s.len() {
            let rest = scan_spec(s.subrange(n, s.len() as int));
            (seq![m] + rest.0, n + rest.1, rest.2)
        } else {
            (Seq::empty(), 0, ScanEnd::Corrupt)
        }
    } else if is_torn(s) {
        (Seq::empty(), 0, ScanEnd::Torn)
    } else {
        (Seq::empty(), 0, ScanEnd::Corrupt)
    }
}

/// The frames of `rs`, one after another.
pub open spec fn frames_of(rs: Seq<RecordModel>) -> Seq<u8>
    decreases rs.len(),
{
    if rs.len() == 0 {
        Seq::empty()
    } else {
        frame_of(rs[0]) + frames_of(rs.drop_first())
    }
}

pub open spec fn records_view(v: Seq<Record>) -> Seq<RecordModel> {
    v.map_values(|r: Record| r@)
}

/// Reads the records of one segment's bytes: the records, how many bytes they
/// take, and how the bytes end.
pub fn scan_segment(bytes: &[u8]) -> (r: (Vec<Record>, usize, ScanEnd))
    ensures
        records_view(r.0@) == scan_spec(bytes@).0,
        r.1 == scan_spec(bytes@).1,
        r.2 == scan_spec(bytes@).2,
{
    let mut records: Vec<Record> = Vec::new();
    let mut offset: usize = 0;
    assert(bytes@.subrange(0, bytes@.len() as int) =~= bytes@);
    loop
        invariant
            offset <= bytes@.len(),
            ({
                let rest = scan_spec(bytes@.subrange(offset as int, bytes@.len() as int));
                &&& scan_spec(bytes@).0 == records_view(records@) + rest.0
                &&& scan_spec(bytes@).1 == offset + rest.1
                &&& scan_spec(bytes@).2 == rest.2
            }),
        decreases bytes@.len() - offset,
    {
        let ghost s = bytes@.subrange(offset as int, bytes@.len() as int);
        if offset == bytes.len() {
            assert(s.len() == 0);
            assert(records_view(records@) + Seq::<RecordModel>::empty() =~= records_view(records@));
            return (records, offset, ScanEnd::Clean);
        }
        match decode(bytes, offset) {
            Ok((record, n)) => {
                proof {
                    let m = choose|m: RecordModel| starts_with_frame(s, m);
                    lemma_frame_unique(s, m, record@);
                    lemma_frame_layout(record@);
                    assert(s.subrange(n as int, s.len() as int) =~= bytes@.subrange(offset + n, bytes@.len() as int));
                    let rest = scan_spec(s.subrange(n as int, s.len() as int));
                    assert(records_view(records@.push(record)) =~= records_view(records@).push(record@));
                    assert(records_view(records@) + (seq![record@] + rest.0) =~= records_view(records@).push(record@) + rest.0);
                }
                records.push(record);
                offset = offset + n;
            },
            Err(DecodeError::ChecksumMismatch) => {
                let declared = read_u32(bytes, offset);
                assert(declared == u32_at(s, 0));
                if declared as usize == bytes.len() - offset {
                    assert(records_view(records@) + Seq::<RecordModel>::empty() =~= records_view(records@));
                    return (records, offset, ScanEnd::Torn);
                } else {
                    assert(records_view(records@) + Seq::<RecordModel>::empty() =~= records_view(records@));
                    return (records, offset, ScanEnd::Corrupt);
                }
            },
            Err(DecodeError::TruncatedFrame) => {
                assert(records_view(records@) + Seq::<RecordModel>::empty() =~= records_view(records@));
                return (records, offset, ScanEnd::Torn);
            },
            Err(DecodeError::Malformed) => {
                assert(records_view(records@) + Seq::<RecordModel>::empty() =~= records_view(records@));
                return (records, offset, ScanEnd::Corrupt);
            },
        }
    }
}

/// Applying an applicable record keeps every retained record at or below the
/// last position.
proof fn lemma_apply_bounded(m: LogModel, r: RecordModel)
    requires
        crate::mem::queues_wf(m.queues),
        positions_bounded(m),
        applicable(m, r),
    ensures
        positions_bounded(apply_spec(m, r)),
{
    let n = apply_spec(m, r);
    match r {
        RecordModel::Add { position, queue, payload } => {
            assert forall|k: Seq<u8>, i: int| #[trigger] n.queues.contains_key(k) && 0 <= i < n.queues[k].len()
                implies #[trigger] n.queues[k][i].0 <= n.last_position by {
                if k == queue && i < records_of(m.queues, queue).len() {
                    assert(n.queues[k][i] == m.queues[k][i]);
                }
            }
        },
        RecordModel::Truncate { position, queue } => {
            if m.queues.contains_key(queue) {
                let q = m.queues[queue];
                assert forall|i: int| 0 <= i < q.len() implies 0 <= #[trigger] q[i].0 <= m.last_position by {
                    assert(m.queues.contains_key(queue));
                }
                lemma_drop_below_within(q, position, 0, m.last_position as int);
            }
            assert forall|k: Seq<u8>, i: int| #[trigger] n.queues.contains_key(k) && 0 <= i < n.queues[k].len()
                implies #[trigger] n.queues[k][i].0 <= n.last_position by {
                if k == queue {
                    assert(n.queues[k] == drop_below(m.queues[queue], position));
                } else {
                    assert(n.queues[k] == m.queues[k]);
                }
            }
        },
    }
}

/// Applies `record` to the index and the last position, when it is
/// applicable. Returns whether it was, and whether it was a truncation that
/// moved the lowest retained position.
fn apply_to_index(queues: &mut MemQueues, last_position: &mut u64, record: &Record) -> (r: (bool, bool))
    requires
        old(queues).wf(),
        positions_bounded(LogModel { queues: old(queues)@, last_position: *old(last_position) }),
    ensures
        final(queues).wf(),
        ({
            let before = LogModel { queues: old(queues)@, last_position: *old(last_position) };
            let after = LogModel { queues: final(queues)@, last_position: *final(last_position) };
            &&& r.0 == applicable(before, record@)
            &&& r.0 ==> after == apply_spec(before, record@)
            &&& !r.0 ==> after == before
            &&& r.1 == (r.0 && record@ is Truncate && min_retained(after.queues) != min_retained(before.queues))
            &&& positions_bounded(after)
        }),
{
    let ghost before = LogModel { queues: queues@, last_position: *last_position };
    proof {
        queues.lemma_wf_queues();
        if applicable(before, record@) {
            lemma_apply_bounded(before, record@);
        }
    }
    match record {
        Record::AddRecord { position, queue, payload } => {
            if *position <= *last_position || *position == u64::MAX {
                return (false, false);
            }
            proof {
                if queues@.contains_key(queue@) {
                    let q = queues@[queue@];
                    assert(q.len() > 0);
                    assert(q.last() == q[q.len() - 1]);
                }
            }
            queues.add_record(queue.as_slice(), *position, payload.as_slice());
            *last_position = *position;
            (true, false)
        },
        Record::Truncate { position, queue } => {
            if *last_position >= u64::MAX - 1 {
                return (false, false);
            }
            let before_min = queues.min_position();
            let moved_to = queues.truncate(queue.as_slice(), *position);
            let emptied = before_min.is_some() && queues.min_position().is_none();
            *last_position = *last_position + 1;
            (true, moved_to.is_some() || emptied)
        },
    }
}

/// The segments that remain after reclaiming below `floor`: every leading
/// sealed segment whose records all lie below `floor` goes. A segment's
/// records lie below the next segment's first position.
pub open spec fn reclaim_count(segments: Seq<u64>, floor: int) -> int
    decreases segments.len(),
{
    if segments.len() >= 2 && segments[1] <= floor {
        1 + reclaim_count(segments.drop_first(), floor)
    } else {
        0
    }
}

/// Segments ordered by first position.
pub open spec fn segments_ordered(segments: Seq<u64>) -> bool {
    forall|i: int, j: int| 0 <= i < j < segments.len() ==> #[trigger] segments[i] < #[trigger] segments[j]
}

/// The contents of one segment file.
pub struct SegmentFile {
    /// The first position of the segment, which names the file.
    pub first_position: u64,
    pub bytes: Vec<u8>,
}

/// The log's files could not be read back.
#[derive(PartialEq, Eq, Structural, Debug, Clone, Copy)]
pub enum ReadRecordError {
    /// Bytes that are no record before the end of the log, segments out of
    /// order, or records whose positions do not increase.
    CorruptLog,
}

pub open spec fn files_view(fs: Seq<SegmentFile>) -> Seq<(u64, Seq<u8>)> {
    fs.map_values(|f: SegmentFile| (f.first_position, f.bytes@))
}

pub open spec fn first_positions(fs: Seq<(u64, Seq<u8>)>) -> Seq<u64> {
    fs.map_values(|f: (u64, Seq<u8>)| f.0)
}

/// The records of all segments, in order.
pub open spec fn records_of_files(fs: Seq<(u64, Seq<u8>)>) -> Seq<RecordModel>
    decreases fs.len(),
{
    if fs.len() == 0 {
        Seq::empty()
    } else {
        records_of_files(fs.drop_last()) + scan_spec(fs.last().1).0
    }
}

/// The segments can be read back: ordered, starting at position 1 or later,
/// every byte a record but for an interrupted write at the very end.
pub open spec fn files_readable(fs: Seq<(u64, Seq<u8>)>) -> bool {
    &&& fs.len() > 0
    &&& segments_ordered(first_positions(fs))
    &&& 1 <= fs[0].0
    &&& fs.last().0 < u64::MAX
    &&& forall|i: int| 0 <= i < fs.len() - 1 ==> #[trigger] scan_spec(fs[i].1).2 == ScanEnd::Clean
    &&& scan_spec(fs.last().1).2 != ScanEnd::Corrupt
}

/// The state replay starts from: the positions before the first segment are
/// taken.
pub open spec fn replay_start(fs: Seq<(u64, Seq<u8>)>) -> LogModel {
    LogModel { queues: QueuesModel::empty(), last_position: (fs[0].0 - 1) as u64 }
}

/// The state that opening the segments gives, if they can be opened: the
/// replay of every record, with the positions before the active segment taken.
pub open spec fn open_spec(fs: Seq<(u64, Seq<u8>)>) -> Option<LogModel> {
    if fs.len() == 0 {
        Some(LogModel { queues: QueuesModel::empty(), last_position: 0 })
    } else if !files_readable(fs) {
        None
    } else {
        match replay_spec(replay_start(fs), records_of_files(fs)) {
            None => None,
            Some(m) => Some(LogModel {
                queues: m.queues,
                last_position: if m.last_position + 1 < fs.last().0 { (fs.last().0 - 1) as u64 } else { m.last_position },
            }),
        }
    }
}

/// Once a replay fails, it fails whatever follows.
proof fn lemma_replay_fails_on(m: LogModel, a: Seq<RecordModel>, b: Seq<RecordModel>)
    requires
        replay_spec(m, a) is None,
    ensures
        replay_spec(m, a + b) is None,
    decreases b.len(),
{
    if b.len() == 0 {
        assert(a + b =~= a);
    } else {
        lemma_replay_fails_on(m, a, b.drop_last());
        assert((a + b).drop_last() =~= a + b.drop_last());
    }
}

/// A replay that fails on the records of the first `i` files fails on all of
/// them.
proof fn lemma_replay_fails_to_end(fs: Seq<(u64, Seq<u8>)>, start: LogModel, i: int)
    requires
        0 <= i <= fs.len(),
        replay_spec(start, records_of_files(fs.subrange(0, i))) is None,
    ensures
        replay_spec(start, records_of_files(fs)) is None,
    decreases fs.len() - i,
{
    if i == fs.len() {
        assert(fs.subrange(0, i) =~= fs);
    } else {
        lemma_records_of_files_step(fs, i);
        lemma_replay_fails_on(start, records_of_files(fs.subrange(0, i)), scan_spec(fs[i].1).0);
        lemma_replay_fails_to_end(fs, start, i + 1);
    }
}

/// The records of the first `i + 1` files extend those of the first `i`.
proof fn lemma_records_of_files_step(fs: Seq<(u64, Seq<u8>)>, i: int)
    requires
        0 <= i < fs.len(),
    ensures
        records_of_files(fs.subrange(0, i + 1)) == records_of_files(fs.subrange(0, i)) + scan_spec(fs[i].1).0,
{
    assert(fs.subrange(0, i + 1).drop_last() =~= fs.subrange(0, i));
}

/// What the caller is to do with segment files after a record was applied.
pub struct SegmentAction {
    /// Start a new active segment file whose first position is this one.
    pub roll_to: Option<u64>,
    /// Delete the segment files with these first positions.
    pub delete: Vec<u64>,
}

/// A log record that could not be applied.
#[derive(PartialEq, Eq, Structural, Debug, Clone, Copy)]
pub enum ApplyError {
    /// An added record whose position does not follow the last position, or
    /// a truncation when no position is left for it.
    OutOfOrder,
}

/// A multi-queue write-ahead log.
pub struct MultiRecordLog {
    in_mem_queues: MemQueues,
    last_position: u64,
    segments: Vec<u64>,
    active_len: u64,
    roll_threshold: u64,
}

impl MultiRecordLog {
    /// The queues and the last position handed out.
    pub closed spec fn model(&self) -> LogModel {
        LogModel { queues: self.in_mem_queues@, last_position: self.last_position }
    }

    /// The first position of each segment file, oldest first; the last one is
    /// the active segment.
    pub closed spec fn segments(&self) -> Seq<u64> {
        self.segments@
    }

    /// Bytes written to the active segment.
    pub closed spec fn active_len(&self) -> u64 {
        self.active_len
    }

    /// The size at which the active segment is sealed.
    pub closed spec fn roll_threshold(&self) -> u64 {
        self.roll_threshold
    }

    pub closed spec fn wf(&self) -> bool {
        &&& self.in_mem_queues.wf()
        &&& positions_bounded(self.model())
        &&& self.last_position < u64::MAX
        &&& self.segments@.len() > 0
        &&& segments_ordered(self.segments@)
        &&& self.segments@.last() <= self.last_position + 1
        &&& self.roll_threshold > 0
    }

    /// A well-formed log meets what the laws below ask of its state.
    pub proof fn lemma_wf_model(&self)
        requires
            self.wf(),
        ensures
            queues_wf(self.model().queues),
            self.model().queues.dom().finite(),
            positions_bounded(self.model()),
            self.segments().len() > 0,
            segments_ordered(self.segments()),
    {
        self.in_mem_queues.lemma_wf_queues();
    }

    /// A log with no record, whose one segment starts at position 1.
    pub fn new(roll_threshold: u64) -> (r: MultiRecordLog)
        requires
            roll_threshold > 0,
        ensures
            r.wf(),
            r.model() == (LogModel { queues: QueuesModel::empty(), last_position: 0 }),
            r.segments() == seq![1u64],
            r.active_len() == 0,
            r.roll_threshold() == roll_threshold,
    {
        MultiRecordLog {
            in_mem_queues: MemQueues::new(),
            last_position: 0,
            segments: vec![1u64],
            active_len: 0,
            roll_threshold,
        }
    }

    /// The number of segment files.
    pub fn num_files(&self) -> (r: usize)
        ensures
            r == self.segments().len(),
    {
        self.segments.len()
    }

    /// The first positions of the segment files, oldest first.
    pub fn segment_positions(&self) -> (r: Vec<u64>)
        ensures
            r@ == self.segments(),
    {
        self.segments.clone()
    }

    /// Bytes written to the active segment.
    pub fn active_segment_len(&self) -> (r: u64)
        ensures
            r == self.active_len(),
    {
        self.active_len
    }

    /// The last position handed out, 0 before the first.
    pub fn last_position(&self) -> (r: u64)
        ensures
            r == self.model().last_position,
    {
        self.last_position
    }

    /// Whether `queue` holds at least one record.
    pub fn contains_queue(&self, queue: &str) -> (r: bool)
        requires
            self.wf(),
        ensures
            r == self.model().queues.contains_key(queue.spec_bytes()),
    {
        let name = queue.as_bytes_vec();
        self.in_mem_queues.contains_queue(name.as_slice())
    }

    /// Returns the first record of `queue_id` whose position is at least
    /// `position`.
    pub fn get_after(&self, queue_id: &str, position: u64) -> (r: Option<(u64, &[u8])>)
        requires
            self.wf(),
        ensures
            r matches Some((p, b)) ==>
                crate::mem::get_after_spec(self.model().queues, queue_id.spec_bytes(), position) == Some((p, b@)),
            r is None <==> crate::mem::get_after_spec(self.model().queues, queue_id.spec_bytes(), position) is None,
    {
        let name = queue_id.as_bytes_vec();
        self.in_mem_queues.get_after(name.as_slice(), position)
    }

    /// The record that appends `payload` to `queue` at the next position, and
    /// its frame; `None` when the positions are used up or the record does not
    /// fit a frame.
    pub fn prepare_append(&self, queue: &str, payload: &[u8]) -> (r: Option<(Record, Vec<u8>)>)
        requires
            self.wf(),
        ensures
            r is Some <==> (self.model().last_position + 1 < u64::MAX
                && queue.spec_bytes().len() <= 0xffff
                && payload@.len() + queue.spec_bytes().len() + 23 <= 0xffff_ffff),
            r matches Some((rec, frame)) ==> {
                &&& rec@ == (RecordModel::Add {
                    position: (self.model().last_position + 1) as u64,
                    queue: queue.spec_bytes(),
                    payload: payload@,
                })
                &&& frame@ == frame_of(rec@)
            },
    {
        let name = queue.as_bytes_vec();
        if self.last_position >= u64::MAX - 1 || name.len() > 0xffff || payload.len() > 0xffff_ffff - 23 - name.len() {
            return None;
        }
        let record = Record::AddRecord {
            position: self.last_position + 1,
            queue: name,
            payload: vstd::slice::slice_to_vec(payload),
        };
        let frame = encode(&record);
        Some((record, frame))
    }

    /// The record that drops the records of `queue` below `position`, and its
    /// frame; `None` when the positions are used up or the name does not fit a
    /// frame.
    pub fn prepare_truncate(&self, queue: &str, position: u64) -> (r: Option<(Record, Vec<u8>)>)
        requires
            self.wf(),
        ensures
            r is Some <==> (self.model().last_position + 1 < u64::MAX && queue.spec_bytes().len() <= 0xffff),
            r matches Some((rec, frame)) ==> {
                &&& rec@ == (RecordModel::Truncate { position, queue: queue.spec_bytes() })
                &&& frame@ == frame_of(rec@)
            },
    {
        let name = queue.as_bytes_vec();
        if self.last_position >= u64::MAX - 1 || name.len() > 0xffff {
            return None;
        }
        let record = Record::Truncate { position, queue: name };
        let frame = encode(&record);
        Some((record, frame))
    }

    /// The position below which no retained record lies.
    fn floor(&self) -> (r: u64)
        requires
            self.wf(),
        ensures
            r == reclaim_floor(self.model()),
    {
        match self.in_mem_queues.min_position() {
            Some(p) => p,
            None => self.last_position + 1,
        }
    }

    /// Removes the leading sealed segments whose records all lie below
    /// `floor`, and returns their first positions.
    fn reclaim(&mut self, floor: u64) -> (r: Vec<u64>)
        requires
            old(self).wf(),
        ensures
            final(self).wf(),
            final(self).model() == old(self).model(),
            final(self).active_len() == old(self).active_len(),
            final(self).roll_threshold() == old(self).roll_threshold(),
            0 <= reclaim_count(old(self).segments(), floor as int) < old(self).segments().len(),
            r@ == old(self).segments().subrange(0, reclaim_count(old(self).segments(), floor as int)),
            final(self).segments() == old(self).segments().subrange(
                reclaim_count(old(self).segments(), floor as int),
                old(self).segments().len() as int,
            ),
    {
        let ghost segs = self.segments@;
        let mut k: usize = 0;
        assert(segs.subrange(0, segs.len() as int) =~= segs);
        while k < self.segments.len() - 1 && self.segments[k + 1] <= floor
            invariant
                self.segments@ == segs,
                segs.len() > 0,
                0 <= k < segs.len(),
                reclaim_count(segs, floor as int) == k + reclaim_count(segs.subrange(k as int, segs.len() as int), floor as int),
            decreases segs.len() - k,
        {
            let ghost t = segs.subrange(k as int, segs.len() as int);
            assert(t.drop_first() =~= segs.subrange(k + 1, segs.len() as int));
            k = k + 1;
        }
        proof {
            let t = segs.subrange(k as int, segs.len() as int);
            assert(reclaim_count(t, floor as int) == 0);
        }
        let mut removed = self.segments.split_off(k);
        core::mem::swap(&mut self.segments, &mut removed);
        proof {
            let t = self.segments@;
            assert forall|i: int, j: int| 0 <= i < j < t.len() implies #[trigger] t[i] < #[trigger] t[j] by {
                assert(segs[i + k] < segs[j + k]);
            }
            assert(t.last() == segs.last());
        }
        removed
    }

    /// Brings the log up to date with `record`, whose frame of `frame_len`
    /// bytes was durably written to the active segment. An added record must
    /// take the next position; a truncation takes the next position itself.
    /// Only a truncation that moves the lowest retained position gives up
    /// segments: then every leading sealed segment whose records all lie below
    /// the new floor goes. When the truncation leaves no queue with a record,
    /// the floor is the next position, so every sealed segment goes. Once the
    /// active segment exceeds the roll threshold, a new one starts at the next
    /// position (unless the active one holds no added record yet). The size of
    /// the active segment saturates at the largest `u64`.
    pub fn apply(&mut self, record: &Record, frame_len: u64) -> (r: Result<SegmentAction, ApplyError>)
        requires
            old(self).wf(),
        ensures
            final(self).wf(),
            final(self).roll_threshold() == old(self).roll_threshold(),
            r is Err <==> !applicable(old(self).model(), record@),
            r is Err ==> final(self).model() == old(self).model() && final(self).segments() == old(self).segments()
                && final(self).active_len() == old(self).active_len(),
            r matches Ok(a) ==> {
                let m = final(self).model();
                let moved = record@ is Truncate && min_retained(m.queues) != min_retained(old(self).model().queues);
                let reclaimed = if moved { reclaim_count(old(self).segments(), reclaim_floor(m)) } else { 0 };
                let kept = old(self).segments().subrange(reclaimed, old(self).segments().len() as int);
                let grown = old(self).active_len() + frame_len;
                let roll = grown > old(self).roll_threshold() && kept.last() <= m.last_position;
                &&& m == apply_spec(old(self).model(), record@)
                &&& a.delete@ == old(self).segments().subrange(0, reclaimed)
                &&& roll ==> a.roll_to == Some((m.last_position + 1) as u64)
                    && final(self).segments() == kept.push((m.last_position + 1) as u64)
                    && final(self).active_len() == 0
                &&& !roll ==> a.roll_to is None && final(self).segments() == kept
                    && final(self).active_len() == if grown > u64::MAX { u64::MAX as int } else { grown }
            },
            r is Ok ==> reclaim_floor(old(self).model()) <= reclaim_floor(final(self).model()),
            r matches Ok(a) ==> a.delete@.len() > 0 ==> forall|k: Seq<u8>, i: int|
                #[trigger] final(self).model().queues.contains_key(k) && 0 <= i < final(self).model().queues[k].len()
                ==> old(self).segments()[a.delete@.len() as int] <= #[trigger] final(self).model().queues[k][i].0,
    {
        let ghost old_model = self.model();
        let ghost old_segments = self.segments@;
        proof { self.lemma_wf_model(); }
        let (applied, moved) = apply_to_index(&mut self.in_mem_queues, &mut self.last_position, record);
        if !applied {
            return Err(ApplyError::OutOfOrder);
        }
        let delete = if moved {
            let floor = self.floor();
            self.reclaim(floor)
        } else {
            Vec::new()
        };
        let roll = (self.active_len > self.roll_threshold || frame_len > self.roll_threshold - self.active_len)
            && self.segments[self.segments.len() - 1] <= self.last_position;
        let roll_to = if roll {
            let first = self.last_position + 1;
            self.segments.push(first);
            self.active_len = 0;
            proof {
                let t = self.segments@;
                assert forall|i: int, j: int| 0 <= i < j < t.len() implies #[trigger] t[i] < #[trigger] t[j] by {
                    if j == t.len() - 1 && i < t.len() - 2 {
                        assert(t[i] < t[t.len() - 2]);
                    }
                }
            }
            Some(first)
        } else {
            self.active_len = self.active_len.saturating_add(frame_len);
            None
        };
        proof {
            self.lemma_wf_model();
            lemma_floor_monotone(old_model, record@);
            lemma_reclaim_keeps_live_records(self.model(), old_segments);
        }
        Ok(SegmentAction { roll_to, delete })
    }

    /// Opens a log from the contents of its segment files, oldest first, by
    /// replaying every record. An interrupted write at the end of the last
    /// segment ends the replay: the active segment's length is then that of
    /// its whole records, and the caller cuts the file there. Replay gives up
    /// no segment. With no file, the log is new, with one segment starting at
    /// position 1.
    pub fn open(files: &Vec<SegmentFile>, roll_threshold: u64) -> (r: Result<MultiRecordLog, ReadRecordError>)
        requires
            roll_threshold > 0,
        ensures
            r is Ok <==> open_spec(files_view(files@)) is Some,
            r matches Ok(log) ==> {
                let fs = files_view(files@);
                &&& log.wf()
                &&& Some(log.model()) == open_spec(fs)
                &&& log.roll_threshold() == roll_threshold
                &&& fs.len() == 0 ==> log.segments() == seq![1u64] && log.active_len() == 0
                &&& fs.len() > 0 ==> log.segments() == first_positions(fs)
                    && log.active_len() == scan_spec(fs.last().1).1
            },
    {
        let ghost fs = files_view(files@);
        if files.len() == 0 {
            return Ok(MultiRecordLog::new(roll_threshold));
        }
        if files[0].first_position == 0 {
            return Err(ReadRecordError::CorruptLog);
        }
        let ghost start = replay_start(fs);
        let mut queues = MemQueues::new();
        let mut last_position: u64 = files[0].first_position - 1;
        let mut segments: Vec<u64> = Vec::new();
        let mut active_len: u64 = 0;
        let mut i: usize = 0;
        while i < files.len()
            invariant
                fs == files_view(files@),
                fs.len() > 0,
                1 <= fs[0].0,
                start == replay_start(fs),
                0 <= i <= files@.len(),
                queues.wf(),
                positions_bounded(LogModel { queues: queues@, last_position }),
                last_position < u64::MAX,
                segments@ == first_positions(fs.subrange(0, i as int)),
                segments_ordered(segments@),
                forall|j: int| 0 <= j < i ==> #[trigger] scan_spec(fs[j].1).2 == ScanEnd::Clean || j == fs.len() - 1,
                i > 0 ==> scan_spec(fs[i - 1].1).2 != ScanEnd::Corrupt,
                i > 0 ==> active_len == scan_spec(fs[i - 1].1).1,
                replay_spec(start, records_of_files(fs.subrange(0, i as int)))
                    == Some(LogModel { queues: queues@, last_position }),
            decreases files@.len() - i,
        {
            let file = &files[i];
            if i > 0 && file.first_position <= segments[i - 1] {
                proof {
                    let fp = first_positions(fs);
                    assert(segments@[i - 1] == first_positions(fs.subrange(0, i as int))[i - 1]);
                    assert(fp[i - 1] == fs[i - 1].0);
                    assert(fp[i as int] == fs[i as int].0);
                    assert(fp[i - 1] >= fp[i as int]);
                    assert(!segments_ordered(fp)) by {
                        if segments_ordered(fp) {
                            assert(fp[i - 1] < fp[i as int]);
                        }
                    }
                    assert(!files_readable(fs));
                }
                return Err(ReadRecordError::CorruptLog);
            }
            let (records, valid_len, end) = scan_segment(file.bytes.as_slice());
            if end == ScanEnd::Corrupt || (end == ScanEnd::Torn && i + 1 < files.len()) {
                proof {
                    assert(fs[i as int].1 == file.bytes@);
                    if i + 1 < files.len() {
                        assert(scan_spec(fs[i as int].1).2 != ScanEnd::Clean);
                    } else {
                        assert(fs.last() == fs[i as int]);
                    }
                    assert(!files_readable(fs));
                }
                return Err(ReadRecordError::CorruptLog);
            }
            let ghost done = records_of_files(fs.subrange(0, i as int));
            let ghost recs = records_view(records@);
            assert(fs[i as int].1 == file.bytes@);
            let mut j: usize = 0;
            while j < records.len()
                invariant
                    0 <= j <= records@.len(),
                    i < files@.len(),
                    fs == files_view(files@),
                    start == replay_start(fs),
                    done == records_of_files(fs.subrange(0, i as int)),
                    recs == scan_spec(fs[i as int].1).0,
                    recs == records_view(records@),
                    queues.wf(),
                    positions_bounded(LogModel { queues: queues@, last_position }),
                    last_position < u64::MAX,
                    replay_spec(start, done + recs.subrange(0, j as int))
                        == Some(LogModel { queues: queues@, last_position }),
                decreases records@.len() - j,
            {
                let ghost before = LogModel { queues: queues@, last_position };
                let (applied, _) = apply_to_index(&mut queues, &mut last_position, &records[j]);
                proof {
                    assert((done + recs.subrange(0, j + 1)).drop_last() =~= done + recs.subrange(0, j as int));
                    assert((done + recs.subrange(0, j + 1)).last() == records@[j as int]@);
                }
                if !applied {
                    proof {
                        assert(recs[j as int] == records@[j as int]@);
                        assert(replay_spec(start, done + recs.subrange(0, j + 1)) is None);
                        let later = recs.subrange(j + 1, recs.len() as int);
                        lemma_replay_fails_on(start, done + recs.subrange(0, j + 1), later);
                        assert(done + recs.subrange(0, j + 1) + later =~= done + recs);
                        lemma_records_of_files_step(fs, i as int);
                        self::lemma_replay_fails_to_end(fs, start, i as int + 1);
                    }
                    return Err(ReadRecordError::CorruptLog);
                }
                j = j + 1;
            }
            proof {
                assert(recs.subrange(0, recs.len() as int) =~= recs);
                lemma_records_of_files_step(fs, i as int);
                assert(fs.subrange(0, i + 1).map_values(|f: (u64, Seq<u8>)| f.0)
                    =~= fs.subrange(0, i as int).map_values(|f: (u64, Seq<u8>)| f.0).push(fs[i as int].0));
            }
            segments.push(file.first_position);
            active_len = valid_len as u64;
            proof {
                let t = segments@;
                assert forall|a: int, b: int| 0 <= a < b < t.len() implies #[trigger] t[a] < #[trigger] t[b] by {
                    if b == t.len() - 1 && a < t.len() - 2 {
                        assert(t[a] < t[t.len() - 2]);
                    }
                }
            }
            i = i + 1;
        }
        let active_first = segments[segments.len() - 1];
        if active_first == u64::MAX {
            return Err(ReadRecordError::CorruptLog);
        }
        if last_position + 1 < active_first {
            last_position = active_first - 1;
        }
        proof {
            assert(fs.subrange(0, fs.len() as int) =~= fs);
            assert(segments@.last() == fs.last().0);
        }
        Ok(MultiRecordLog { in_mem_queues: queues, last_position, segments, active_len, roll_threshold })
    }
}

/// Reading back the frames of a sequence of records gives those records,
/// taking every byte.
pub proof fn lemma_scan_frames(rs: Seq<RecordModel>)
    requires
        forall|i: int| 0 <= i < rs.len() ==> (#[trigger] rs[i]).fits(),
    ensures
        scan_spec(frames_of(rs)) == (rs, frames_of(rs).len() as int, ScanEnd::Clean),
    decreases rs.len(),
{
    let s = frames_of(rs);
    if rs.len() == 0 {
        assert(rs =~= Seq::<RecordModel>::empty());
    } else {
        let r0 = rs[0];
        let rest = rs.drop_first();
        assert forall|i: int| 0 <= i < rest.len() implies (#[trigger] rest[i]).fits() by {
            assert(rest[i] == rs[i + 1]);
        }
        lemma_scan_frames(rest);
        let f = frame_of(r0);
        assert(rs[0].fits());
        lemma_frame_layout(r0);
        assert(s.subrange(0, f.len() as int) =~= f);
        assert(starts_with_frame(s, r0));
        let m = choose|m: RecordModel| starts_with_frame(s, m);
        lemma_frame_unique(s, m, r0);
        assert(s.subrange(f.len() as int, s.len() as int) =~= frames_of(rest));
        assert(seq![r0] + rest =~= rs);
    }
}

/// Replay equivalence: the frames that a session writes, read back by `open`
/// from one segment, rebuild exactly the state that the session reached by
/// applying the same records one after another to a new log.
pub proof fn lemma_replay_equivalence(rs: Seq<RecordModel>)
    requires
        forall|i: int| 0 <= i < rs.len() ==> (#[trigger] rs[i]).fits(),
        replay_spec(LogModel { queues: QueuesModel::empty(), last_position: 0 }, rs) is Some,
    ensures
        open_spec(seq![(1u64, frames_of(rs))])
            == replay_spec(LogModel { queues: QueuesModel::empty(), last_position: 0 }, rs),
{
    let fs = seq![(1u64, frames_of(rs))];
    lemma_scan_frames(rs);
    assert(fs.drop_last() =~= Seq::<(u64, Seq<u8>)>::empty());
    assert(records_of_files(fs.drop_last()) == Seq::<RecordModel>::empty());
    assert(fs.last().1 == frames_of(rs));
    assert(records_of_files(fs) == Seq::<RecordModel>::empty() + scan_spec(frames_of(rs)).0);
    assert(records_of_files(fs) =~= rs);
    assert(first_positions(fs) =~= seq![1u64]);
    assert(files_readable(fs));
    assert(replay_start(fs) == LogModel { queues: QueuesModel::empty(), last_position: 0 });
}

/// Keeping only the bytes of the whole records read from a segment reads back
/// the same records, now ending cleanly.
pub proof fn lemma_scan_prefix(s: Seq<u8>)
    requires
        scan_spec(s).2 != ScanEnd::Corrupt,
    ensures
        0 <= scan_spec(s).1 <= s.len(),
        scan_spec(s.subrange(0, scan_spec(s).1)) == (scan_spec(s).0, scan_spec(s).1, ScanEnd::Clean),
    decreases s.len(),
{
    if s.len() == 0 {
        assert(s.subrange(0, 0) =~= s);
    } else if exists|m: RecordModel| starts_with_frame(s, m) {
        let m = choose|m: RecordModel| starts_with_frame(s, m);
        let n = frame_of(m).len() as int;
        lemma_frame_layout(m);
        let rest = s.subrange(n, s.len() as int);
        lemma_scan_prefix(rest);
        let k = scan_spec(rest).1;
        let t = s.subrange(0, n + k);
        assert(t.subrange(0, n) =~= s.subrange(0, n));
        assert(starts_with_frame(t, m));
        let m2 = choose|m2: RecordModel| starts_with_frame(t, m2);
        lemma_frame_unique(t, m2, m);
        assert(t.subrange(n, t.len() as int) =~= rest.subrange(0, k));
    } else {
        assert(s.subrange(0, 0) =~= Seq::<u8>::empty());
    }
}

/// Recovery is idempotent: cutting the last segment after its whole records,
/// as the caller does after `open`, and opening again gives the same state;
/// the cut segment then ends cleanly, so a further open and cut change
/// nothing.
pub proof fn lemma_reopen_after_cut(fs: Seq<(u64, Seq<u8>)>)
    requires
        fs.len() > 0,
        open_spec(fs) is Some,
    ensures
        ({
            let last = fs.last();
            let cut = fs.update(fs.len() - 1, (last.0, last.1.subrange(0, scan_spec(last.1).1)));
            &&& open_spec(cut) == open_spec(fs)
            &&& scan_spec(cut.last().1).2 == ScanEnd::Clean
            &&& scan_spec(cut.last().1).1 == cut.last().1.len()
        }),
{
    let last = fs.last();
    let cut = fs.update(fs.len() - 1, (last.0, last.1.subrange(0, scan_spec(last.1).1)));
    lemma_scan_prefix(last.1);
    assert(cut.drop_last() =~= fs.drop_last());
    assert(first_positions(cut) =~= first_positions(fs));
    assert forall|i: int| 0 <= i < cut.len() - 1 implies #[trigger] scan_spec(cut[i].1).2 == ScanEnd::Clean by {
        assert(cut[i] == fs[i]);
    }
    assert(files_readable(cut));
    assert(records_of_files(cut) == records_of_files(fs));
    assert(replay_start(cut) == replay_start(fs));
}

/// The floor lies at or below the first record of every queue, and at or
/// below the next position to hand out.
proof fn lemma_floor_bounds(m: LogModel)
    requires
        queues_wf(m.queues),
        m.queues.dom().finite(),
        positions_bounded(m),
    ensures
        reclaim_floor(m) <= m.last_position + 1,
        forall|k: Seq<u8>, i: int| #[trigger] m.queues.contains_key(k) && 0 <= i < m.queues[k].len()
            ==> reclaim_floor(m) <= #[trigger] m.queues[k][i].0,
{
    if let Some(a) = min_retained(m.queues) {
        assert(is_min_retained(m.queues, a));
        let ka = choose|ka: Seq<u8>| #[trigger] m.queues.contains_key(ka) && m.queues[ka][0].0 == a;
        assert(m.queues[ka][0].0 <= m.last_position);
        assert forall|k: Seq<u8>, i: int| #[trigger] m.queues.contains_key(k) && 0 <= i < m.queues[k].len()
            implies reclaim_floor(m) <= #[trigger] m.queues[k][i].0 by {
            assert(a <= m.queues[k][0].0);
            if i > 0 {
                assert(m.queues[k][0].0 < m.queues[k][i].0);
            }
        }
    } else {
        assert forall|k: Seq<u8>, i: int| #[trigger] m.queues.contains_key(k) && 0 <= i < m.queues[k].len()
            implies reclaim_floor(m) <= #[trigger] m.queues[k][i].0 by {
            lemma_min_retained_exists(m.queues, k);
        }
    }
}

/// The segment that reclaiming stops at starts at or below the floor.
proof fn lemma_reclaim_count_bound(segments: Seq<u64>, floor: int)
    ensures
        0 <= reclaim_count(segments, floor),
        segments.len() > 0 ==> reclaim_count(segments, floor) < segments.len(),
        reclaim_count(segments, floor) > 0 ==> segments[reclaim_count(segments, floor)] <= floor,
    decreases segments.len(),
{
    if segments.len() >= 2 && segments[1] <= floor {
        let rest = segments.drop_first();
        lemma_reclaim_count_bound(rest, floor);
        if reclaim_count(rest, floor) > 0 {
            assert(segments[reclaim_count(segments, floor)] == rest[reclaim_count(rest, floor)]);
        }
    }
}

/// Reclaiming loses no live record: a segment's records lie below the next
/// segment's first position, and every record that a queue still holds lies
/// at or after the first position of the first segment that is kept, so no
/// given-up segment holds one.
pub proof fn lemma_reclaim_keeps_live_records(m: LogModel, segments: Seq<u64>)
    requires
        queues_wf(m.queues),
        m.queues.dom().finite(),
        positions_bounded(m),
        segments.len() > 0,
    ensures
        ({
            let c = reclaim_count(segments, reclaim_floor(m));
            &&& 0 <= c < segments.len()
            &&& c > 0 ==> forall|k: Seq<u8>, i: int| #[trigger] m.queues.contains_key(k) && 0 <= i < m.queues[k].len()
                ==> segments[c] <= #[trigger] m.queues[k][i].0
        }),
{
    lemma_floor_bounds(m);
    lemma_reclaim_count_bound(segments, reclaim_floor(m));
}

/// The floor below which segments can be given up never moves back: applying
/// any applicable record leaves it where it was or raises it.
pub proof fn lemma_floor_monotone(m: LogModel, r: RecordModel)
    requires
        queues_wf(m.queues),
        m.queues.dom().finite(),
        positions_bounded(m),
        applicable(m, r),
    ensures
        reclaim_floor(m) <= reclaim_floor(apply_spec(m, r)),
{
    let n = apply_spec(m, r);
    lemma_floor_bounds(m);
    if let Some(b) = min_retained(n.queues) {
        assert(is_min_retained(n.queues, b));
        let kb = choose|kb: Seq<u8>| #[trigger] n.queues.contains_key(kb) && n.queues[kb][0].0 == b;
        match r {
            RecordModel::Add { position, queue, payload } => {
                if kb == queue {
                    if m.queues.contains_key(queue) {
                        assert(n.queues[kb][0] == m.queues[queue][0]);
                    } else {
                        assert(n.queues[kb][0].0 == position);
                    }
                } else {
                    assert(m.queues.contains_key(kb) && n.queues[kb] == m.queues[kb]);
                }
            },
            RecordModel::Truncate { position, queue } => {
                if kb == queue {
                    let q = m.queues[queue];
                    assert forall|i: int| 0 <= i < q.len() implies q[0].0 <= #[trigger] q[i].0 <= u64::MAX by {
                        if i > 0 {
                            assert(q[0].0 < q[i].0);
                        }
                    }
                    lemma_drop_below_within(q, position, q[0].0 as int, u64::MAX as int);
                    assert(n.queues[kb] == drop_below(q, position));
                    assert(n.queues[kb][0].0 >= q[0].0);
                } else {
                    assert(m.queues.contains_key(kb) && n.queues[kb] == m.queues[kb]);
                }
            },
        }
    }
}

/// A frame cut short after `k` of its bytes is an interrupted write: no
/// record's frame starts it.
proof fn lemma_cut_frame_is_torn(r: RecordModel, k: int)
    requires
        r.fits(),
        0 < k < frame_of(r).len(),
    ensures
        is_torn(frame_of(r).subrange(0, k)),
        !exists|m: RecordModel| starts_with_frame(frame_of(r).subrange(0, k), m),
{
    let f = frame_of(r);
    let t = f.subrange(0, k);
    lemma_frame_layout(r);
    if k >= 4 {
        assert(t.subrange(0, 4) =~= f.subrange(0, 4));
        lemma_u32_in(t, 0, f.len() as u32);
    }
    if exists|m: RecordModel| starts_with_frame(t, m) {
        let m = choose|m: RecordModel| starts_with_frame(t, m);
        lemma_frame_layout(m);
        assert(t.subrange(0, t.len() as int) =~= t);
        lemma_frame_fields(t, 0, m);
    }
}

/// Frames followed by a frame cut short read back as exactly the whole
/// frames' records, taking their bytes, and end as an interrupted write.
pub proof fn lemma_scan_torn_tail(rs: Seq<RecordModel>, r: RecordModel, k: int)
    requires
        forall|i: int| 0 <= i < rs.len() ==> (#[trigger] rs[i]).fits(),
        r.fits(),
        0 < k < frame_of(r).len(),
    ensures
        scan_spec(frames_of(rs) + frame_of(r).subrange(0, k))
            == (rs, frames_of(rs).len() as int, ScanEnd::Torn),
    decreases rs.len(),
{
    let t = frame_of(r).subrange(0, k);
    let s = frames_of(rs) + t;
    if rs.len() == 0 {
        assert(s =~= t);
        lemma_cut_frame_is_torn(r, k);
        assert(rs =~= Seq::<RecordModel>::empty());
    } else {
        let r0 = rs[0];
        let rest = rs.drop_first();
        assert forall|i: int| 0 <= i < rest.len() implies (#[trigger] rest[i]).fits() by {
            assert(rest[i] == rs[i + 1]);
        }
        lemma_scan_torn_tail(rest, r, k);
        let f = frame_of(r0);
        assert(rs[0].fits());
        lemma_frame_layout(r0);
        assert(s =~= f + (frames_of(rest) + t));
        assert(s.subrange(0, f.len() as int) =~= f);
        assert(starts_with_frame(s, r0));
        let m = choose|m: RecordModel| starts_with_frame(s, m);
        lemma_frame_unique(s, m, r0);
        assert(s.subrange(f.len() as int, s.len() as int) =~= frames_of(rest) + t);
        assert(seq![r0] + rest =~= rs);
    }
}

/// Recovery after a crash in the middle of a write: a segment holding the
/// frames of `rs` and then the first `k` bytes of one more frame opens to the
/// state that `rs` alone gives, and the active segment keeps only the whole
/// frames, so appending continues after the last whole record.
pub proof fn lemma_open_torn_tail(rs: Seq<RecordModel>, r: RecordModel, k: int)
    requires
        forall|i: int| 0 <= i < rs.len() ==> (#[trigger] rs[i]).fits(),
        r.fits(),
        0 < k < frame_of(r).len(),
        replay_spec(LogModel { queues: QueuesModel::empty(), last_position: 0 }, rs) is Some,
    ensures
        ({
            let bytes = frames_of(rs) + frame_of(r).subrange(0, k);
            &&& open_spec(seq![(1u64, bytes)])
                == replay_spec(LogModel { queues: QueuesModel::empty(), last_position: 0 }, rs)
            &&& scan_spec(bytes).1 == frames_of(rs).len()
        }),
{
    let bytes = frames_of(rs) + frame_of(r).subrange(0, k);
    let fs = seq![(1u64, bytes)];
    lemma_scan_torn_tail(rs, r, k);
    assert(fs.drop_last() =~= Seq::<(u64, Seq<u8>)>::empty());
    assert(records_of_files(fs.drop_last()) == Seq::<RecordModel>::empty());
    assert(fs.last().1 == bytes);
    assert(records_of_files(fs) == Seq::<RecordModel>::empty() + scan_spec(bytes).0);
    assert(records_of_files(fs) =~= rs);
    assert(first_positions(fs) =~= seq![1u64]);
    assert(files_readable(fs));
    assert(replay_start(fs) == LogModel { queues: QueuesModel::empty(), last_position: 0 });
}

/// The records of several segments, one segment after another.
pub open spec fn concat_parts(parts: Seq<Seq<RecordModel>>) -> Seq<RecordModel>
    decreases parts.len(),
{
    if parts.len() == 0 {
        Seq::empty()
    } else {
        concat_parts(parts.drop_last()) + parts.last()
    }
}

/// Segments that each hold the frames of their records read back as all
/// those records, in segment order, every segment ending cleanly.
proof fn lemma_records_of_framed_files(fs: Seq<(u64, Seq<u8>)>, parts: Seq<Seq<RecordModel>>)
    requires
        fs.len() == parts.len(),
        forall|i: int| 0 <= i < fs.len() ==> #[trigger] fs[i].1 == frames_of(parts[i]),
        forall|i: int, j: int| 0 <= i < parts.len() && 0 <= j < parts[i].len() ==> (#[trigger] parts[i][j]).fits(),
    ensures
        records_of_files(fs) == concat_parts(parts),
        forall|i: int| 0 <= i < fs.len() ==> #[trigger] scan_spec(fs[i].1).2 == ScanEnd::Clean,
    decreases fs.len(),
{
    assert forall|i: int| 0 <= i < fs.len() implies #[trigger] scan_spec(fs[i].1).2 == ScanEnd::Clean by {
        assert forall|j: int| 0 <= j < parts[i].len() implies (#[trigger] parts[i][j]).fits() by {}
        lemma_scan_frames(parts[i]);
    }
    if fs.len() > 0 {
        let n = fs.len() - 1;
        lemma_records_of_framed_files(fs.drop_last(), parts.drop_last());
        assert forall|j: int| 0 <= j < parts[n].len() implies (#[trigger] parts[n][j]).fits() by {}
        lemma_scan_frames(parts[n]);
        assert(fs.last() == fs[n]);
        assert(parts.last() == parts[n]);
    }
}

/// Replay equivalence across rolled segments: when a session wrote the frames
/// of its records into a run of segments, the first starting at position 1,
/// each later one named by the position after the last one taken before it,
/// opening them rebuilds the state that applying all the records to a new log
/// gives.
pub proof fn lemma_replay_equivalence_rolled(fs: Seq<(u64, Seq<u8>)>, parts: Seq<Seq<RecordModel>>)
    requires
        fs.len() == parts.len(),
        fs.len() > 0,
        fs[0].0 == 1,
        fs.last().0 < u64::MAX,
        segments_ordered(first_positions(fs)),
        forall|i: int| 0 <= i < fs.len() ==> #[trigger] fs[i].1 == frames_of(parts[i]),
        forall|i: int, j: int| 0 <= i < parts.len() && 0 <= j < parts[i].len() ==> (#[trigger] parts[i][j]).fits(),
        replay_spec(LogModel { queues: QueuesModel::empty(), last_position: 0 }, concat_parts(parts)) is Some,
        fs.last().0 <= replay_spec(LogModel { queues: QueuesModel::empty(), last_position: 0 }, concat_parts(parts))->0.last_position + 1,
    ensures
        open_spec(fs) == replay_spec(LogModel { queues: QueuesModel::empty(), last_position: 0 }, concat_parts(parts)),
{
    lemma_records_of_framed_files(fs, parts);
    let m = replay_spec(LogModel { queues: QueuesModel::empty(), last_position: 0 }, concat_parts(parts))->0;
    assert(m.last_position < u64::MAX) by {
        lemma_replay_below_max(LogModel { queues: QueuesModel::empty(), last_position: 0 }, concat_parts(parts));
    }
    assert(scan_spec(fs.last().1).2 == ScanEnd::Clean) by {
        assert(fs.last() == fs[fs.len() - 1]);
    }
    assert(files_readable(fs));
    assert(replay_start(fs) == LogModel { queues: QueuesModel::empty(), last_position: 0 });
}

/// A replay from below the largest `u64` stays below it.
proof fn lemma_replay_below_max(m: LogModel, rs: Seq<RecordModel>)
    requires
        m.last_position < u64::MAX,
        replay_spec(m, rs) is Some,
    ensures
        replay_spec(m, rs)->0.last_position < u64::MAX,
    decreases rs.len(),
{
    if rs.len() > 0 {
        lemma_replay_below_max(m, rs.drop_last());
    }
}

} // verus!
