//! The record frame: `[u32 frame_length][u32 checksum][u8 kind][u16 queue
//! length][queue][u64 position][u32 payload length][payload]`, integers in
//! little-endian order. `frame_length` counts the whole frame and the checksum
//! covers every byte after the checksum field.
use vstd::prelude::*;

verus! {

/// Offset of the body (the bytes the checksum covers) inside a frame.
pub const HEADER_LEN: usize = 8;

/// Seed of the checksum.
pub const CHECKSUM_SEED: u32 = 0x811c_9dc5;

/// Multiplier of the checksum.
pub const CHECKSUM_PRIME: u32 = 0x0100_0193;

/// The kind byte of an `AddRecord`.
pub const KIND_ADD: u8 = 0;

/// The kind byte of a `Truncate` record.
pub const KIND_TRUNCATE: u8 = 1;

/// One record of the log.
pub enum Record {
    /// `payload` appended to `queue` at `position`.
    AddRecord { position: u64, queue: Vec<u8>, payload: Vec<u8> },
    /// The records of `queue` below `position` are dropped.
    Truncate { position: u64, queue: Vec<u8> },
}

/// A record as plain values.
pub enum RecordModel {
    Add { position: u64, queue: Seq<u8>, payload: Seq<u8> },
    Truncate { position: u64, queue: Seq<u8> },
}

/// Why no record could be read at some offset.
#[derive(PartialEq, Eq, Structural, Debug, Clone, Copy)]
pub enum DecodeError {
    /// Fewer bytes remain than the frame header or its declared length asks for.
    TruncatedFrame,
    /// The checksum field does not match the bytes it covers.
    ChecksumMismatch,
    /// The frame is complete and its checksum matches, but its fields are not
    /// laid out as a record.
    Malformed,
}

impl View for Record {
    type V = RecordModel;

    open spec fn view(&self) -> RecordModel {
        match self {
            Record::AddRecord { position, queue, payload } =>
                RecordModel::Add { position: *position, queue: queue@, payload: payload@ },
            Record::Truncate { position, queue } =>
                RecordModel::Truncate { position: *position, queue: queue@ },
        }
    }
}

impl RecordModel {
    pub open spec fn position(self) -> u64 {
        match self {
            RecordModel::Add { position, .. } => position,
            RecordModel::Truncate { position, .. } => position,
        }
    }

    pub open spec fn queue(self) -> Seq<u8> {
        match self {
            RecordModel::Add { queue, .. } => queue,
            RecordModel::Truncate { queue, .. } => queue,
        }
    }

    pub open spec fn payload(self) -> Seq<u8> {
        match self {
            RecordModel::Add { payload, .. } => payload,
            RecordModel::Truncate { .. } => Seq::empty(),
        }
    }

    pub open spec fn kind(self) -> u8 {
        match self {
            RecordModel::Add { .. } => KIND_ADD,
            RecordModel::Truncate { .. } => KIND_TRUNCATE,
        }
    }

    /// The record's fields fit their length fields.
    pub open spec fn fits(self) -> bool {
        &&& self.queue().len() <= 0xffff
        &&& self.payload().len() + self.queue().len() + 23 <= 0xffff_ffff
    }
}

pub open spec fn le16(x: u16) -> Seq<u8> {
    seq![x as u8, (x >> 8) as u8]
}

pub open spec fn le32(x: u32) -> Seq<u8> {
    seq![x as u8, (x >> 8) as u8, (x >> 16) as u8, (x >> 24) as u8]
}

pub open spec fn le64(x: u64) -> Seq<u8> {
    seq![
        x as u8, (x >> 8) as u8, (x >> 16) as u8, (x >> 24) as u8,
        (x >> 32) as u8, (x >> 40) as u8, (x >> 48) as u8, (x >> 56) as u8,
    ]
}

pub open spec fn u16_at(s: Seq<u8>, i: int) -> u16 {
    (s[i] as u16) | ((s[i + 1] as u16) << 8)
}

pub open spec fn u32_at(s: Seq<u8>, i: int) -> u32 {
    (s[i] as u32) | ((s[i + 1] as u32) << 8) | ((s[i + 2] as u32) << 16) | ((s[i + 3] as u32) << 24)
}

pub open spec fn u64_at(s: Seq<u8>, i: int) -> u64 {
    (s[i] as u64) | ((s[i + 1] as u64) << 8) | ((s[i + 2] as u64) << 16) | ((s[i + 3] as u64) << 24)
        | ((s[i + 4] as u64) << 32) | ((s[i + 5] as u64) << 40) | ((s[i + 6] as u64) << 48)
        | ((s[i + 7] as u64) << 56)
}

/// One step of the checksum: FNV-1a over 32 bits.
pub open spec fn checksum_step(h: u32, b: u8) -> u32 {
    (h ^ (b as u32)).wrapping_mul(CHECKSUM_PRIME)
}

/// The checksum of a byte sequence.
pub open spec fn checksum(s: Seq<u8>) -> u32
    decreases s.len(),
{
    if s.len() == 0 {
        CHECKSUM_SEED
    } else {
        checksum_step(checksum(s.drop_last()), s.last())
    }
}

/// The bytes that the checksum covers.
#[verifier::opaque]
pub open spec fn body_of(r: RecordModel) -> Seq<u8> {
    seq![r.kind()] + le16(r.queue().len() as u16) + r.queue() + le64(r.position())
        + le32(r.payload().len() as u32) + r.payload()
}

/// The frame of a record.
#[verifier::opaque]
pub open spec fn frame_of(r: RecordModel) -> Seq<u8> {
    le32((body_of(r).len() + 8) as u32) + le32(checksum(body_of(r))) + body_of(r)
}

/// The bytes `s` begin with the frame of `r`.
pub open spec fn starts_with_frame(s: Seq<u8>, r: RecordModel) -> bool {
    &&& r.fits()
    &&& frame_of(r).len() <= s.len()
    &&& s.subrange(0, frame_of(r).len() as int) == frame_of(r)
}

/// Fewer bytes than the header, or than the length it declares.
pub open spec fn is_truncated_frame(s: Seq<u8>) -> bool {
    s.len() < 8 || s.len() < u32_at(s, 0)
}

/// A complete frame whose checksum field does not match.
pub open spec fn has_checksum_mismatch(s: Seq<u8>) -> bool {
    &&& !is_truncated_frame(s)
    &&& u32_at(s, 0) >= 8
    &&& u32_at(s, 4) != checksum(s.subrange(8, u32_at(s, 0) as int))
}

proof fn lemma_u16_round_trip(x: u16)
    ensures
        u16_at(le16(x), 0) == x,
{
    assert(((x as u8) as u16) | ((((x >> 8) as u8) as u16) << 8) == x) by (bit_vector);
}

proof fn lemma_u32_round_trip(x: u32)
    ensures
        u32_at(le32(x), 0) == x,
{
    assert(((x as u8) as u32) | ((((x >> 8) as u8) as u32) << 8) | ((((x >> 16) as u8) as u32) << 16)
        | ((((x >> 24) as u8) as u32) << 24) == x) by (bit_vector);
}

proof fn lemma_u64_round_trip(x: u64)
    ensures
        u64_at(le64(x), 0) == x,
{
    assert(((x as u8) as u64) | ((((x >> 8) as u8) as u64) << 8) | ((((x >> 16) as u8) as u64) << 16)
        | ((((x >> 24) as u8) as u64) << 24) | ((((x >> 32) as u8) as u64) << 32)
        | ((((x >> 40) as u8) as u64) << 40) | ((((x >> 48) as u8) as u64) << 48)
        | ((((x >> 56) as u8) as u64) << 56) == x) by (bit_vector);
}

proof fn lemma_u16_bytes(s: Seq<u8>, i: int)
    requires
        0 <= i,
        i + 2 <= s.len(),
    ensures
        le16(u16_at(s, i)) == s.subrange(i, i + 2),
{
    let b0 = s[i];
    let b1 = s[i + 1];
    let x = u16_at(s, i);
    assert((((b0 as u16) | ((b1 as u16) << 8)) as u8) == b0
        && ((((b0 as u16) | ((b1 as u16) << 8)) >> 8) as u8) == b1) by (bit_vector);
    assert(le16(x) =~= s.subrange(i, i + 2));
}

proof fn lemma_u32_bytes(s: Seq<u8>, i: int)
    requires
        0 <= i,
        i + 4 <= s.len(),
    ensures
        le32(u32_at(s, i)) == s.subrange(i, i + 4),
{
    let b0 = s[i];
    let b1 = s[i + 1];
    let b2 = s[i + 2];
    let b3 = s[i + 3];
    let x = u32_at(s, i);
    assert({
        let y = (b0 as u32) | ((b1 as u32) << 8) | ((b2 as u32) << 16) | ((b3 as u32) << 24);
        &&& (y as u8) == b0
        &&& ((y >> 8) as u8) == b1
        &&& ((y >> 16) as u8) == b2
        &&& ((y >> 24) as u8) == b3
    }) by (bit_vector);
    assert(le32(x) =~= s.subrange(i, i + 4));
}

proof fn lemma_u64_bytes(s: Seq<u8>, i: int)
    requires
        0 <= i,
        i + 8 <= s.len(),
    ensures
        le64(u64_at(s, i)) == s.subrange(i, i + 8),
{
    let b0 = s[i];
    let b1 = s[i + 1];
    let b2 = s[i + 2];
    let b3 = s[i + 3];
    let b4 = s[i + 4];
    let b5 = s[i + 5];
    let b6 = s[i + 6];
    let b7 = s[i + 7];
    let x = u64_at(s, i);
    assert({
        let y = (b0 as u64) | ((b1 as u64) << 8) | ((b2 as u64) << 16) | ((b3 as u64) << 24)
            | ((b4 as u64) << 32) | ((b5 as u64) << 40) | ((b6 as u64) << 48) | ((b7 as u64) << 56);
        &&& (y as u8) == b0
        &&& ((y >> 8) as u8) == b1
        &&& ((y >> 16) as u8) == b2
        &&& ((y >> 24) as u8) == b3
        &&& ((y >> 32) as u8) == b4
        &&& ((y >> 40) as u8) == b5
        &&& ((y >> 48) as u8) == b6
        &&& ((y >> 56) as u8) == b7
    }) by (bit_vector);
    assert(le64(x) =~= s.subrange(i, i + 8));
}

fn push_u16(out: &mut Vec<u8>, x: u16)
    ensures
        final(out)@ == old(out)@ + le16(x),
{
    out.push(x as u8);
    out.push((x >> 8) as u8);
    assert(final(out)@ =~= old(out)@ + le16(x));
}

fn push_u32(out: &mut Vec<u8>, x: u32)
    ensures
        final(out)@ == old(out)@ + le32(x),
{
    out.push(x as u8);
    out.push((x >> 8) as u8);
    out.push((x >> 16) as u8);
    out.push((x >> 24) as u8);
    assert(final(out)@ =~= old(out)@ + le32(x));
}

fn push_u64(out: &mut Vec<u8>, x: u64)
    ensures
        final(out)@ == old(out)@ + le64(x),
{
    out.push(x as u8);
    out.push((x >> 8) as u8);
    out.push((x >> 16) as u8);
    out.push((x >> 24) as u8);
    out.push((x >> 32) as u8);
    out.push((x >> 40) as u8);
    out.push((x >> 48) as u8);
    out.push((x >> 56) as u8);
    assert(final(out)@ =~= old(out)@ + le64(x));
}

/// Appends `bytes[from..to]` to `out`.
fn push_range(out: &mut Vec<u8>, bytes: &[u8], from: usize, to: usize)
    requires
        from <= to <= bytes@.len(),
    ensures
        final(out)@ == old(out)@ + bytes@.subrange(from as int, to as int),
{
    let mut i: usize = from;
    while i < to
        invariant
            from <= i <= to <= bytes@.len(),
            out@ == old(out)@ + bytes@.subrange(from as int, i as int),
        decreases to - i,
    {
        out.push(bytes[i]);
        assert(bytes@.subrange(from as int, i + 1) =~= bytes@.subrange(from as int, i as int).push(bytes@[i as int]));
        assert(out@ =~= old(out)@ + bytes@.subrange(from as int, i + 1));
        i = i + 1;
    }
}

/// The checksum of `bytes[from..to]`.
pub fn checksum_of_range(bytes: &[u8], from: usize, to: usize) -> (r: u32)
    requires
        from <= to <= bytes@.len(),
    ensures
        r == checksum(bytes@.subrange(from as int, to as int)),
{
    let mut h: u32 = CHECKSUM_SEED;
    let mut i: usize = from;
    assert(bytes@.subrange(from as int, from as int).len() == 0);
    while i < to
        invariant
            from <= i <= to <= bytes@.len(),
            h == checksum(bytes@.subrange(from as int, i as int)),
        decreases to - i,
    {
        let ghost prev = bytes@.subrange(from as int, i as int);
        h = (h ^ (bytes[i] as u32)).wrapping_mul(CHECKSUM_PRIME);
        assert(bytes@.subrange(from as int, i + 1).drop_last() =~= prev);
        i = i + 1;
    }
    h
}

/// The frame of `record`.
pub fn encode(record: &Record) -> (r: Vec<u8>)
    requires
        record@.fits(),
    ensures
        r@ == frame_of(record@),
{
    let (kind, position, queue, payload): (u8, u64, &Vec<u8>, Option<&Vec<u8>>) = match record {
        Record::AddRecord { position, queue, payload } => (KIND_ADD, *position, queue, Some(payload)),
        Record::Truncate { position, queue } => (KIND_TRUNCATE, *position, queue, None),
    };
    let mut body: Vec<u8> = Vec::new();
    body.push(kind);
    push_u16(&mut body, queue.len() as u16);
    push_range(&mut body, queue.as_slice(), 0, queue.len());
    push_u64(&mut body, position);
    match payload {
        Some(p) => {
            push_u32(&mut body, p.len() as u32);
            push_range(&mut body, p.as_slice(), 0, p.len());
        },
        None => {
            push_u32(&mut body, 0);
        },
    }
    proof {
        assert(queue@.subrange(0, queue@.len() as int) =~= queue@);
        if let Some(p) = payload {
            assert(p@.subrange(0, p@.len() as int) =~= p@);
        }
        reveal(body_of);
        assert(body@ =~= body_of(record@));
    }
    let sum = checksum_of_range(body.as_slice(), 0, body.len());
    assert(body@.subrange(0, body@.len() as int) =~= body@);
    let mut out: Vec<u8> = Vec::new();
    push_u32(&mut out, (body.len() + HEADER_LEN) as u32);
    push_u32(&mut out, sum);
    push_range(&mut out, body.as_slice(), 0, body.len());
    proof { reveal(frame_of); }
    assert(out@ =~= frame_of(record@));
    out
}

fn read_u16(bytes: &[u8], i: usize) -> (r: u16)
    requires
        i + 2 <= bytes@.len(),
    ensures
        r == u16_at(bytes@, i as int),
{
    (bytes[i] as u16) | ((bytes[i + 1] as u16) << 8)
}

pub(crate) fn read_u32(bytes: &[u8], i: usize) -> (r: u32)
    requires
        i + 4 <= bytes@.len(),
    ensures
        r == u32_at(bytes@, i as int),
{
    (bytes[i] as u32) | ((bytes[i + 1] as u32) << 8) | ((bytes[i + 2] as u32) << 16) | ((bytes[i + 3] as u32) << 24)
}

fn read_u64(bytes: &[u8], i: usize) -> (r: u64)
    requires
        i + 8 <= bytes@.len(),
    ensures
        r == u64_at(bytes@, i as int),
{
    (bytes[i] as u64) | ((bytes[i + 1] as u64) << 8) | ((bytes[i + 2] as u64) << 16) | ((bytes[i + 3] as u64) << 24)
        | ((bytes[i + 4] as u64) << 32) | ((bytes[i + 5] as u64) << 40) | ((bytes[i + 6] as u64) << 48)
        | ((bytes[i + 7] as u64) << 56)
}

proof fn lemma_u16_in(s: Seq<u8>, i: int, x: u16)
    requires
        0 <= i,
        i + 2 <= s.len(),
        s.subrange(i, i + 2) == le16(x),
    ensures
        u16_at(s, i) == x,
{
    assert(s[i] == s.subrange(i, i + 2)[0] && s[i + 1] == s.subrange(i, i + 2)[1]);
    lemma_u16_round_trip(x);
}

pub proof fn lemma_u32_in(s: Seq<u8>, i: int, x: u32)
    requires
        0 <= i,
        i + 4 <= s.len(),
        s.subrange(i, i + 4) == le32(x),
    ensures
        u32_at(s, i) == x,
{
    let t = s.subrange(i, i + 4);
    assert(s[i] == t[0] && s[i + 1] == t[1] && s[i + 2] == t[2] && s[i + 3] == t[3]);
    lemma_u32_round_trip(x);
}

proof fn lemma_u64_in(s: Seq<u8>, i: int, x: u64)
    requires
        0 <= i,
        i + 8 <= s.len(),
        s.subrange(i, i + 8) == le64(x),
    ensures
        u64_at(s, i) == x,
{
    let t = s.subrange(i, i + 8);
    assert(s[i] == t[0] && s[i + 1] == t[1] && s[i + 2] == t[2] && s[i + 3] == t[3]);
    assert(s[i + 4] == t[4] && s[i + 5] == t[5] && s[i + 6] == t[6] && s[i + 7] == t[7]);
    lemma_u64_round_trip(x);
}

/// The pieces of a frame, by offset.
#[verifier::rlimit(50)]
pub proof fn lemma_frame_layout(r: RecordModel)
    requires
        r.fits(),
    ensures
        ({
            let f = frame_of(r);
            let ql = r.queue().len() as int;
            &&& f.len() == 23 + ql + r.payload().len()
            &&& f.subrange(0, 4) == le32(f.len() as u32)
            &&& f.subrange(4, 8) == le32(checksum(body_of(r)))
            &&& f.subrange(8, f.len() as int) == body_of(r)
            &&& f[8] == r.kind()
            &&& f.subrange(9, 11) == le16(ql as u16)
            &&& f.subrange(11, 11 + ql) == r.queue()
            &&& f.subrange(11 + ql, 19 + ql) == le64(r.position())
            &&& f.subrange(19 + ql, 23 + ql) == le32(r.payload().len() as u32)
            &&& f.subrange(23 + ql, f.len() as int) == r.payload()
        }),
{
    let f = frame_of(r);
    let b = body_of(r);
    let ql = r.queue().len() as int;
    let h = le32((b.len() + 8) as u32) + le32(checksum(b));
    assert(f == h + b) by {
        reveal(frame_of);
    }
    assert(b == seq![r.kind()] + le16(ql as u16) + r.queue() + le64(r.position())
        + le32(r.payload().len() as u32) + r.payload()) by {
        reveal(body_of);
    }
    assert(b.len() == 15 + ql + r.payload().len());
    assert(f.subrange(0, 4) =~= le32((b.len() + 8) as u32));
    assert(f.subrange(4, 8) =~= le32(checksum(b)));
    assert(f.subrange(8, f.len() as int) =~= b);
    assert(b[0] == r.kind());
    assert(b.subrange(1, 3) =~= le16(ql as u16));
    assert(b.subrange(3, 3 + ql) =~= r.queue());
    assert(b.subrange(3 + ql, 11 + ql) =~= le64(r.position()));
    assert(b.subrange(11 + ql, 15 + ql) =~= le32(r.payload().len() as u32));
    assert(b.subrange(15 + ql, b.len() as int) =~= r.payload());
    assert(f.subrange(9, 11) =~= b.subrange(1, 3));
    assert(f.subrange(11, 11 + ql) =~= b.subrange(3, 3 + ql));
    assert(f.subrange(11 + ql, 19 + ql) =~= b.subrange(3 + ql, 11 + ql));
    assert(f.subrange(19 + ql, 23 + ql) =~= b.subrange(11 + ql, 15 + ql));
    assert(f.subrange(23 + ql, f.len() as int) =~= b.subrange(15 + ql, b.len() as int));
}

proof fn lemma_sub_of_sub(s: Seq<u8>, d: int, f: Seq<u8>, a: int, b: int)
    requires
        0 <= d,
        0 <= a <= b <= f.len(),
        d + f.len() <= s.len(),
        s.subrange(d, d + f.len()) == f,
    ensures
        s.subrange(d + a, d + b) == f.subrange(a, b),
{
    assert(s.subrange(d + a, d + b) =~= s.subrange(d, d + f.len()).subrange(a, b));
}

/// Where a frame of `r` stands at offset `d` of `s`, its fields read back.
#[verifier::rlimit(40)]
pub proof fn lemma_frame_fields(s: Seq<u8>, d: int, r: RecordModel)
    requires
        0 <= d <= s.len(),
        starts_with_frame(s.subrange(d, s.len() as int), r),
    ensures
        u32_at(s, d) == frame_of(r).len(),
        u32_at(s, d + 4) == checksum(body_of(r)),
        s.subrange(d + 8, d + frame_of(r).len()) == body_of(r),
        s[d + 8] == r.kind(),
        u16_at(s, d + 9) == r.queue().len(),
        s.subrange(d + 11, d + 11 + r.queue().len()) == r.queue(),
        u64_at(s, d + 11 + r.queue().len()) == r.position(),
        u32_at(s, d + 19 + r.queue().len()) == r.payload().len(),
        s.subrange(d + 23 + r.queue().len(), d + frame_of(r).len()) == r.payload(),
{
    let f = frame_of(r);
    let ql = r.queue().len() as int;
    let n = f.len() as int;
    lemma_frame_layout(r);
    assert(s.subrange(d, d + n) =~= f) by {
        assert(s.subrange(d, d + n) =~= s.subrange(d, s.len() as int).subrange(0, n));
    }
    lemma_sub_of_sub(s, d, f, 0, 4);
    lemma_sub_of_sub(s, d, f, 4, 8);
    lemma_sub_of_sub(s, d, f, 8, n);
    lemma_sub_of_sub(s, d, f, 9, 11);
    lemma_sub_of_sub(s, d, f, 11, 11 + ql);
    lemma_sub_of_sub(s, d, f, 11 + ql, 19 + ql);
    lemma_sub_of_sub(s, d, f, 19 + ql, 23 + ql);
    lemma_sub_of_sub(s, d, f, 23 + ql, n);
    assert(s[d + 8] == s.subrange(d, d + n)[8]);
    lemma_u32_in(s, d, n as u32);
    lemma_u32_in(s, d + 4, checksum(body_of(r)));
    lemma_u16_in(s, d + 9, ql as u16);
    lemma_u64_in(s, d + 11 + ql, r.position());
    lemma_u32_in(s, d + 19 + ql, r.payload().len() as u32);
}

/// At most one record's frame starts a byte sequence.
pub proof fn lemma_frame_unique(s: Seq<u8>, r1: RecordModel, r2: RecordModel)
    requires
        starts_with_frame(s, r1),
        starts_with_frame(s, r2),
    ensures
        r1 == r2,
{
    assert(s.subrange(0, s.len() as int) =~= s);
    lemma_frame_fields(s, 0, r1);
    lemma_frame_fields(s, 0, r2);
    if r1.kind() == KIND_ADD {
        assert(r2.kind() == KIND_ADD);
    } else {
        assert(r2.kind() == KIND_TRUNCATE);
    }
}

proof fn lemma_piece(f: Seq<u8>, t: Seq<u8>, a: int, b: int, i: int)
    requires
        0 <= a <= i < b <= f.len(),
        b <= t.len(),
        f.subrange(a, b) == t.subrange(a, b),
    ensures
        f[i] == t[i],
{
    assert(f[i] == f.subrange(a, b)[i - a]);
    assert(t[i] == t.subrange(a, b)[i - a]);
}

/// A byte sequence that agrees with a frame on each of its fields is that frame.
#[verifier::rlimit(40)]
proof fn lemma_frame_from_fields(t: Seq<u8>, r: RecordModel)
    requires
        r.fits(),
        t.len() == frame_of(r).len(),
        t.subrange(0, 4) == le32(t.len() as u32),
        t.subrange(4, 8) == le32(checksum(t.subrange(8, t.len() as int))),
        t[8] == r.kind(),
        t.subrange(9, 11) == le16(r.queue().len() as u16),
        t.subrange(11, 11 + r.queue().len() as int) == r.queue(),
        t.subrange(11 + r.queue().len() as int, 19 + r.queue().len() as int) == le64(r.position()),
        t.subrange(19 + r.queue().len() as int, 23 + r.queue().len() as int) == le32(r.payload().len() as u32),
        t.subrange(23 + r.queue().len() as int, t.len() as int) == r.payload(),
    ensures
        t == frame_of(r),
{
    let f = frame_of(r);
    let n = f.len() as int;
    let ql = r.queue().len() as int;
    lemma_frame_layout(r);
    assert forall|i: int| 8 <= i < n implies f[i] == t[i] by {
        if i == 8 {
        } else if i < 11 {
            lemma_piece(f, t, 9, 11, i);
        } else if i < 11 + ql {
            lemma_piece(f, t, 11, 11 + ql, i);
        } else if i < 19 + ql {
            lemma_piece(f, t, 11 + ql, 19 + ql, i);
        } else if i < 23 + ql {
            lemma_piece(f, t, 19 + ql, 23 + ql, i);
        } else {
            lemma_piece(f, t, 23 + ql, n, i);
        }
    }
    assert(f.subrange(8, n) =~= t.subrange(8, n));
    assert forall|i: int| 0 <= i < 8 implies f[i] == t[i] by {
        if i < 4 {
            lemma_piece(f, t, 0, 4, i);
        } else {
            lemma_piece(f, t, 4, 8, i);
        }
    }
    assert(f =~= t);
}

/// Fields read at `start` that pass the checks of `decode` make up the frame
/// of the record they describe.
#[verifier::rlimit(40)]
proof fn lemma_decoded(b: Seq<u8>, start: int, n: int, rm: RecordModel)
    requires
        0 <= start,
        23 <= n,
        start + n <= b.len(),
        n == u32_at(b, start),
        u32_at(b, start + 4) == checksum(b.subrange(start + 8, start + n)),
        b[start + 8] == rm.kind(),
        u16_at(b, start + 9) == rm.queue().len(),
        rm.queue().len() <= n - 23,
        b.subrange(start + 11, start + 11 + rm.queue().len()) == rm.queue(),
        u64_at(b, start + 11 + rm.queue().len()) == rm.position(),
        u32_at(b, start + 19 + rm.queue().len()) == rm.payload().len(),
        n - 23 - rm.queue().len() == rm.payload().len(),
        b.subrange(start + 23 + rm.queue().len(), start + n) == rm.payload(),
    ensures
        n == frame_of(rm).len(),
        starts_with_frame(b.subrange(start, b.len() as int), rm),
{
    let s = b.subrange(start, b.len() as int);
    let t = s.subrange(0, n);
    let ql = rm.queue().len() as int;
    assert(t =~= b.subrange(start, start + n));
    lemma_u32_bytes(b, start);
    lemma_u32_bytes(b, start + 4);
    lemma_u16_bytes(b, start + 9);
    lemma_u64_bytes(b, start + 11 + ql);
    lemma_u32_bytes(b, start + 19 + ql);
    lemma_sub_of_sub(b, start, t, 0, 4);
    lemma_sub_of_sub(b, start, t, 4, 8);
    lemma_sub_of_sub(b, start, t, 8, n);
    lemma_sub_of_sub(b, start, t, 9, 11);
    lemma_sub_of_sub(b, start, t, 11, 11 + ql);
    lemma_sub_of_sub(b, start, t, 11 + ql, 19 + ql);
    lemma_sub_of_sub(b, start, t, 19 + ql, 23 + ql);
    lemma_sub_of_sub(b, start, t, 23 + ql, n);
    assert(t[8] == b[start + 8]);
    lemma_frame_layout(rm);
    lemma_frame_from_fields(t, rm);
}

/// A frame at `start` passes every check of `decode`.
proof fn lemma_framed(b: Seq<u8>, start: int)
    requires
        0 <= start <= b.len(),
        exists|m: RecordModel| starts_with_frame(b.subrange(start, b.len() as int), m),
    ensures
        ({
            let n = u32_at(b, start) as int;
            let ql = u16_at(b, start + 9) as int;
            &&& start + 8 <= b.len()
            &&& 23 <= n
            &&& start + n <= b.len()
            &&& u32_at(b, start + 4) == checksum(b.subrange(start + 8, start + n))
            &&& ql <= n - 23
            &&& n - 23 - ql == u32_at(b, start + 19 + ql)
            &&& (b[start + 8] == KIND_ADD || (b[start + 8] == KIND_TRUNCATE && n - 23 - ql == 0))
        }),
{
    let m = choose|m: RecordModel| starts_with_frame(b.subrange(start, b.len() as int), m);
    lemma_frame_fields(b, start, m);
    lemma_frame_layout(m);
}

/// Copies `bytes[from..to]`.
fn copy_range(bytes: &[u8], from: usize, to: usize) -> (r: Vec<u8>)
    requires
        from <= to <= bytes@.len(),
    ensures
        r@ == bytes@.subrange(from as int, to as int),
{
    let mut out: Vec<u8> = Vec::new();
    push_range(&mut out, bytes, from, to);
    assert(out@ =~= bytes@.subrange(from as int, to as int));
    out
}

/// Reads the frame that starts at `start`. On success returns the record and
/// the length of its frame. Reading succeeds exactly when a record's frame
/// starts there; `TruncatedFrame` and `ChecksumMismatch` come exactly on the
/// conditions that name them, and `Malformed` on any other input.
#[verifier::rlimit(60)]
pub fn decode(bytes: &[u8], start: usize) -> (r: Result<(Record, usize), DecodeError>)
    requires
        start <= bytes@.len(),
    ensures
        ({
            let s = bytes@.subrange(start as int, bytes@.len() as int);
            &&& r matches Ok((rec, n)) ==> n == frame_of(rec@).len() && starts_with_frame(s, rec@)
            &&& (exists|m: RecordModel| starts_with_frame(s, m)) ==> r is Ok
            &&& r == Err::<(Record, usize), DecodeError>(DecodeError::TruncatedFrame) <==> is_truncated_frame(s)
            &&& r == Err::<(Record, usize), DecodeError>(DecodeError::ChecksumMismatch) <==> has_checksum_mismatch(s)
        }),
{
    let ghost s = bytes@.subrange(start as int, bytes@.len() as int);
    proof {
        if exists|m: RecordModel| starts_with_frame(s, m) {
            lemma_framed(bytes@, start as int);
        }
    }
    let rem = bytes.len() - start;
    if rem < HEADER_LEN {
        return Err(DecodeError::TruncatedFrame);
    }
    let frame_len = read_u32(bytes, start);
    assert(frame_len == u32_at(s, 0));
    if rem < frame_len as usize {
        return Err(DecodeError::TruncatedFrame);
    }
    if frame_len < 8 {
        return Err(DecodeError::Malformed);
    }
    let end = start + frame_len as usize;
    let stored = read_u32(bytes, start + 4);
    assert(stored == u32_at(s, 4));
    let computed = checksum_of_range(bytes, start + 8, end);
    assert(bytes@.subrange(start + 8, end as int) =~= s.subrange(8, frame_len as int));
    if stored != computed {
        return Err(DecodeError::ChecksumMismatch);
    }
    if frame_len < 23 {
        return Err(DecodeError::Malformed);
    }
    let kind = bytes[start + 8];
    let queue_len = read_u16(bytes, start + 9) as usize;
    if (frame_len as usize) - 23 < queue_len {
        return Err(DecodeError::Malformed);
    }
    let position = read_u64(bytes, start + 11 + queue_len);
    let payload_len = read_u32(bytes, start + 19 + queue_len) as usize;
    if (frame_len as usize) - 23 - queue_len != payload_len {
        return Err(DecodeError::Malformed);
    }
    let queue = copy_range(bytes, start + 11, start + 11 + queue_len);
    let record = if kind == KIND_ADD {
        let payload = copy_range(bytes, start + 23 + queue_len, end);
        Record::AddRecord { position, queue, payload }
    } else if kind == KIND_TRUNCATE && payload_len == 0 {
        Record::Truncate { position, queue }
    } else {
        return Err(DecodeError::Malformed);
    };
    proof {
        assert(bytes@.subrange(start + 23 + queue_len, end as int) =~= record@.payload());
        lemma_decoded(bytes@, start as int, frame_len as int, record@);
    }
    Ok((record, frame_len as usize))
}

} // verus!
