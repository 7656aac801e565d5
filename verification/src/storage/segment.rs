//! Segments: a log of records and its offset index.
//!
//! The segment keeps its log bytes and index entries in memory; the files
//! that persist them mirror exactly these bytes.
use vstd::prelude::*;
use crate::config::SyncLevel;
use crate::error::RukaError;
use crate::storage::index::{index_find, Index, IndexEntry};
use crate::storage::record::{
    opt_len, opt_view, parse_record, record_bytes, record_outcome, RecordOutcome,
    RecordParse, RecordView,
};
use crate::protocol::request::payloads_view;
use crate::wire::{be32_at, copy_range, get_u32, put_slice, put_u32, put_u64};
use crate::storage::contents::{law_segment_append, law_segment_created, segment_kept, segment_records};

pub use crate::storage::record::Record;

verus! {

/// A segment manages a log of records and its index.
pub struct Segment {
    /// Offset of the first record this segment was created for.
    pub base_offset: u64,
    log: Vec<u8>,
    index: Index,
    next_offset: u64,
    max_bytes: u64,
    sync_level: SyncLevel,
}

/// The state of a segment.
pub struct SegmentView {
    pub base_offset: u64,
    /// The bytes of the `.log` file.
    pub log: Seq<u8>,
    /// The entries of the `.index` file.
    pub index: Seq<IndexEntry>,
    pub next_offset: u64,
    pub max_bytes: u64,
    pub sync_level: SyncLevel,
}

impl View for Segment {
    type V = SegmentView;

    closed spec fn view(&self) -> SegmentView {
        SegmentView {
            base_offset: self.base_offset,
            log: self.log@,
            index: self.index@,
            next_offset: self.next_offset,
            max_bytes: self.max_bytes,
            sync_level: self.sync_level,
        }
    }
}

/// The segment after `r` was written at its end.
pub open spec fn appended(v: SegmentView, r: RecordView) -> SegmentView {
    SegmentView {
        log: v.log + record_bytes(r),
        index: v.index.push(IndexEntry { offset: r.offset, position: v.log.len() as u64 }),
        next_offset: (v.next_offset + 1) as u64,
        ..v
    }
}

/// Whether appending a record with these fields succeeds, and its offset.
pub open spec fn append_outcome(v: SegmentView, key: Option<Seq<u8>>, value: Option<Seq<u8>>) -> Result<
    u64,
    RukaError,
> {
    let size = 28 + opt_len(key) + opt_len(value);
    if size > v.max_bytes {
        Err(RukaError::MessageTooLarge)
    } else if v.log.len() + size > v.max_bytes && v.log.len() > 0 {
        Err(RukaError::SegmentFull { current: v.log.len() as u64, max: v.max_bytes })
    } else {
        Ok(v.next_offset)
    }
}

/// The record an append writes.
pub open spec fn new_record(
    v: SegmentView,
    key: Option<Seq<u8>>,
    value: Option<Seq<u8>>,
    timestamp_ms: u64,
) -> RecordView {
    RecordView { offset: v.next_offset, timestamp_ms, key, value }
}

/// The records that scanning the log from `pos` decodes, each with its
/// position; scanning stops at the first place no whole record decodes.
pub open spec fn scan_records(log: Seq<u8>, pos: int) -> Seq<(RecordView, int)>
    decreases log.len() - pos,
{
    if pos < 0 || pos > log.len() {
        Seq::empty()
    } else {
        match record_outcome(log.skip(pos)) {
            RecordOutcome::Decoded(r, n) => if n > 0 && pos + n <= log.len() {
                seq![(r, pos)] + scan_records(log, pos + n)
            } else {
                Seq::empty()
            },
            _ => Seq::empty(),
        }
    }
}

/// Where scanning the log from `pos` stops: the end of the valid prefix.
pub open spec fn scan_end(log: Seq<u8>, pos: int) -> int
    decreases log.len() - pos,
{
    if pos < 0 || pos > log.len() {
        pos
    } else {
        match record_outcome(log.skip(pos)) {
            RecordOutcome::Decoded(r, n) => if n > 0 && pos + n <= log.len() {
                scan_end(log, pos + n)
            } else {
                pos
            },
            _ => pos,
        }
    }
}

/// Whether loading panics while scanning from `pos`: on a record whose key or
/// value runs past the log, or whose offset leaves no next offset.
pub open spec fn load_panics(log: Seq<u8>, pos: int) -> bool
    decreases log.len() - pos,
{
    if pos < 0 || pos > log.len() {
        false
    } else {
        match record_outcome(log.skip(pos)) {
            RecordOutcome::Malformed => true,
            RecordOutcome::Decoded(r, n) => if n > 0 && pos + n <= log.len() {
                r.offset == u64::MAX || load_panics(log, pos + n)
            } else {
                false
            },
            _ => false,
        }
    }
}

/// Index entries for scanned records: each offset at its position.
pub open spec fn scan_entries(recs: Seq<(RecordView, int)>) -> Seq<IndexEntry> {
    Seq::new(recs.len(), |i: int| IndexEntry { offset: recs[i].0.offset, position: recs[i].1 as u64 })
}

/// The next offset after scanned records: one past the last, or the base.
pub open spec fn next_after(recs: Seq<(RecordView, int)>, base: u64) -> u64 {
    if recs.len() == 0 {
        base
    } else {
        (recs.last().0.offset + 1) as u64
    }
}

/// The entries of an index that was read, or none if reading failed.
pub open spec fn read_entries(index: Result<Index, RukaError>) -> Seq<IndexEntry> {
    match index {
        Ok(i) => i@,
        Err(_) => Seq::empty(),
    }
}

/// The index a loaded segment uses: the loaded one, unless it is missing,
/// unreadable or empty while the log is not; then one rebuilt from the log.
pub open spec fn loaded_index(index: Result<Index, RukaError>, log: Seq<u8>) -> Seq<IndexEntry> {
    let initial = read_entries(index);
    if initial.len() == 0 && log.len() > 0 {
        scan_entries(scan_records(log, 0))
    } else {
        initial
    }
}

/// The segment rebuilt from its log bytes and the index read for it: the
/// log cut back to its whole records, the next offset after the last of
/// them, and the index as `loaded_index` gives it.
pub open spec fn reloaded(
    base_offset: u64,
    max_bytes: u64,
    sync_level: SyncLevel,
    log: Seq<u8>,
    index: Result<Index, RukaError>,
) -> SegmentView {
    SegmentView {
        base_offset,
        log: log.take(scan_end(log, 0)),
        index: loaded_index(index, log),
        next_offset: next_after(scan_records(log, 0), base_offset),
        max_bytes,
        sync_level,
    }
}

/// A decoded record lies within the buffer and is at least 28 bytes long.
pub proof fn lemma_decoded_len(s: Seq<u8>)
    ensures
        record_outcome(s) matches RecordOutcome::Decoded(_, n) ==> 28 <= n <= s.len(),
{
}

/// What reading one record gives.
pub enum ReadOutcome {
    Found(RecordView),
    Missing,
    /// The record length field is below 28.
    TooSmall,
    /// The read runs past the end of the log.
    Eof,
    /// The bytes there make the read panic.
    Panics,
}

/// Up to `cap` bytes of the log from `p` on.
pub open spec fn window(log: Seq<u8>, p: int, cap: int) -> Seq<u8> {
    if p >= log.len() {
        Seq::empty()
    } else if log.len() - p > cap {
        log.subrange(p, p + cap)
    } else {
        log.subrange(p, log.len() as int)
    }
}

/// Read exactly the record whose length field is at `p`.
pub open spec fn exact_read(log: Seq<u8>, p: int) -> ReadOutcome {
    if p + 4 > log.len() {
        ReadOutcome::Eof
    } else {
        let rl = be32_at(log, p) as int;
        if rl < 4 {
            ReadOutcome::Panics
        } else if p + rl > log.len() {
            ReadOutcome::Eof
        } else {
            match record_outcome(log.subrange(p, p + rl)) {
                RecordOutcome::Malformed => ReadOutcome::Panics,
                RecordOutcome::TooSmall => ReadOutcome::TooSmall,
                RecordOutcome::Incomplete => ReadOutcome::Missing,
                RecordOutcome::Decoded(r, _) => ReadOutcome::Found(r),
            }
        }
    }
}

/// Read the record at position `p` that should carry offset `o`: decode from
/// the first 4096 bytes there; if that does not give the record with offset
/// `o`, read exactly the record the length field there announces.
pub open spec fn read_record_at(log: Seq<u8>, p: int, o: u64) -> ReadOutcome {
    match record_outcome(window(log, p, 4096)) {
        RecordOutcome::Malformed => ReadOutcome::Panics,
        RecordOutcome::TooSmall => ReadOutcome::TooSmall,
        RecordOutcome::Decoded(r, _) => if r.offset == o {
            ReadOutcome::Found(r)
        } else {
            exact_read(log, p)
        },
        RecordOutcome::Incomplete => exact_read(log, p),
    }
}

/// What `Segment::read_at` gives for offset `o`.
pub open spec fn read_at_outcome(v: SegmentView, o: u64) -> ReadOutcome {
    if o < v.base_offset || o >= v.next_offset {
        ReadOutcome::Missing
    } else {
        match index_find(v.index, o) {
            None => ReadOutcome::Missing,
            Some(p) => read_record_at(v.log, p as int, o),
        }
    }
}

/// How a read's outcome is reported.
pub open spec fn read_result_matches(r: Result<Option<Record>, RukaError>, o: ReadOutcome) -> bool {
    match o {
        ReadOutcome::Found(v) => r matches Ok(Some(rec)) && rec@ == v,
        ReadOutcome::Missing => r matches Ok(None),
        ReadOutcome::TooSmall => r matches Err(RukaError::InvalidFrame(m)) && m@
            == "Record length too small"@,
        ReadOutcome::Eof => r matches Err(RukaError::Io(m)) && m@ == "failed to fill whole buffer"@,
        ReadOutcome::Panics => false,
    }
}

/// How a read that reports where it would panic matches its outcome: no
/// answer exactly where the read panics.
pub open spec fn read_try_matches(r: Option<Result<Option<Record>, RukaError>>, o: ReadOutcome) -> bool {
    match r {
        None => o is Panics,
        Some(x) => read_result_matches(x, o),
    }
}

/// The error for a read past the end of the log.
fn eof_error() -> (r: RukaError)
    ensures
        r matches RukaError::Io(m) && m@ == "failed to fill whole buffer"@,
{
    RukaError::Io("failed to fill whole buffer".to_string())
}

/// The error for a record length field below 28.
fn too_small_error() -> (r: RukaError)
    ensures
        r matches RukaError::InvalidFrame(m) && m@ == "Record length too small"@,
{
    RukaError::InvalidFrame("Record length too small".to_string())
}

/// How much of a batch of payloads fits, scanning from payload `i` with the
/// log `pos` bytes long: the count that fits, or why none does.
pub enum BatchPlan {
    /// A payload's record is longer than the segment's limit.
    TooLarge,
    /// Not even the first record fits after what the segment holds.
    Full,
    /// The first `n` payloads fit.
    Take(nat),
}

/// Plan a batch append: take payloads in order while their records fit.
pub open spec fn batch_plan(ps: Seq<Seq<u8>>, i: nat, pos: int, max: u64) -> BatchPlan
    decreases ps.len() - i,
{
    if i >= ps.len() {
        BatchPlan::Take(i)
    } else {
        let rl = 28 + ps[i as int].len();
        if rl > max {
            BatchPlan::TooLarge
        } else if pos + rl > max {
            if i > 0 {
                BatchPlan::Take(i)
            } else {
                BatchPlan::Full
            }
        } else {
            batch_plan(ps, i + 1, pos + rl, max)
        }
    }
}

/// Past the first payload a plan never reports `Full`, and it never takes
/// more payloads than there are.
pub proof fn lemma_batch_plan_bounds(ps: Seq<Seq<u8>>, i: nat, pos: int, max: u64)
    requires
        i <= ps.len(),
    ensures
        i > 0 ==> batch_plan(ps, i, pos, max) != BatchPlan::Full,
        batch_plan(ps, i, pos, max) matches BatchPlan::Take(k) ==> i <= k <= ps.len(),
    decreases ps.len() - i,
{
    if i < ps.len() {
        let rl = 28 + ps[i as int].len();
        lemma_batch_plan_bounds(ps, i + 1, pos + rl, max);
    }
}

/// The records a batch append writes for the first `k` payloads.
pub open spec fn batch_records(ps: Seq<Seq<u8>>, k: nat, first: u64, ts: u64) -> Seq<RecordView> {
    Seq::new(
        k,
        |j: int|
            RecordView {
                offset: (first + j) as u64,
                timestamp_ms: ts,
                key: None,
                value: Some(ps[j]),
            },
    )
}

/// The segment after each of `recs` was appended in turn.
pub open spec fn appended_all(v: SegmentView, recs: Seq<RecordView>) -> SegmentView
    decreases recs.len(),
{
    if recs.len() == 0 {
        v
    } else {
        appended(appended_all(v, recs.drop_last()), recs.last())
    }
}

/// Append the encoding of a record with no key and the given value.
fn encode_value_record(dst: &mut Vec<u8>, offset: u64, timestamp_ms: u64, payload: &[u8])
    requires
        28 + payload@.len() <= u32::MAX || 28 + payload@.len() <= usize::MAX,
    ensures
        final(dst)@ == old(dst)@ + record_bytes(
            RecordView { offset, timestamp_ms, key: None, value: Some(payload@) },
        ),
{
    let len = payload.len();
    put_u32(dst, (28 + len) as u32);
    put_u64(dst, offset);
    put_u64(dst, timestamp_ms);
    put_u32(dst, u32::MAX);
    put_u32(dst, len as u32);
    put_slice(dst, payload);
    proof {
        let r = RecordView { offset, timestamp_ms, key: None, value: Some(payload@) };
        assert(dst@ =~= old(dst)@ + record_bytes(r));
    }
}

/// The contents of a list of records.
pub open spec fn records_view(v: Seq<Record>) -> Seq<RecordView> {
    Seq::new(v.len(), |i: int| v[i]@)
}

/// Decode records from `w` at `pos` on, keeping those with offsets from `o`
/// on, while their lengths fit in the byte budget `m` (the first one kept
/// always does); also whether decoding panics on the way.
pub open spec fn batch_loop(
    w: Seq<u8>,
    pos: int,
    o: u64,
    m: u32,
    total: int,
    acc: Seq<RecordView>,
) -> (Seq<RecordView>, bool)
    decreases w.len() - pos,
{
    if pos < 0 || pos > w.len() {
        (acc, false)
    } else {
        let s = w.skip(pos);
        if s.len() < 4 {
            (acc, false)
        } else {
            let rl = be32_at(s, 0) as int;
            if s.len() < rl {
                (acc, false)
            } else if total + rl > m && acc.len() > 0 {
                (acc, false)
            } else {
                match record_outcome(s) {
                    RecordOutcome::Malformed => (acc, true),
                    RecordOutcome::Decoded(r, n) => if n > 0 && pos + n <= w.len() {
                        if r.offset >= o {
                            batch_loop(w, pos + n, o, m, total + rl, acc.push(r))
                        } else {
                            batch_loop(w, pos + n, o, m, total, acc)
                        }
                    } else {
                        (acc, false)
                    },
                    _ => (acc, false),
                }
            }
        }
    }
}

/// When the first read found nothing: read exactly the record announced at
/// `p`, keeping it if its offset is at least `o`.
pub open spec fn batch_fallback(log: Seq<u8>, p: int, o: u64) -> (Seq<RecordView>, bool) {
    if p + 4 > log.len() {
        (Seq::empty(), false)
    } else {
        let rl = be32_at(log, p) as int;
        if rl < 4 {
            (Seq::empty(), true)
        } else if p + rl > log.len() {
            (Seq::empty(), false)
        } else {
            match record_outcome(log.subrange(p, p + rl)) {
                RecordOutcome::Malformed => (Seq::empty(), true),
                RecordOutcome::Decoded(r, _) => if r.offset >= o {
                    (seq![r], false)
                } else {
                    (Seq::empty(), false)
                },
                _ => (Seq::empty(), false),
            }
        }
    }
}

/// The first read of a batch covers the byte budget, and at least 1 MiB.
pub open spec fn batch_read_size(m: u32) -> int {
    if m < 1048576 {
        1048576
    } else {
        m as int
    }
}

/// What `Segment::read_batch` gives from offset `o` with byte budget `m`,
/// and whether it panics.
pub open spec fn read_batch_outcome(v: SegmentView, o: u64, m: u32) -> (Seq<RecordView>, bool) {
    if o < v.base_offset || o >= v.next_offset {
        (Seq::empty(), false)
    } else {
        match index_find(v.index, o) {
            None => (Seq::empty(), false),
            Some(p) => {
                let w = window(v.log, p as int, batch_read_size(m));
                let first = batch_loop(w, 0, o, m, 0, Seq::empty());
                if first.1 {
                    first
                } else if first.0.len() == 0 && w.len() > 0 {
                    batch_fallback(v.log, p as int, o)
                } else {
                    first
                }
            },
        }
    }
}

impl Segment {
    /// Read the record announced at `p` for a batch read.
    fn batch_fallback(&self, p: u64, offset: u64) -> (r: Option<Vec<Record>>)
        ensures
            r is None <==> batch_fallback(self@.log, p as int, offset).1,
            r matches Some(v) ==> records_view(v@) == batch_fallback(self@.log, p as int, offset).0,
    {
        let mut out: Vec<Record> = Vec::new();
        let len = self.log.len();
        if len < 4 || p > (len - 4) as u64 {
            proof {
                assert(records_view(out@) =~= Seq::<RecordView>::empty());
            }
            return Some(out);
        }
        let p = p as usize;
        let rl = get_u32(self.log.as_slice(), p) as usize;
        if rl < 4 {
            return None;
        }
        if rl > len - p {
            proof {
                assert(records_view(out@) =~= Seq::<RecordView>::empty());
            }
            return Some(out);
        }
        let full = copy_range(self.log.as_slice(), p, p + rl);
        proof {
            assert(full@.skip(0) =~= full@);
        }
        match parse_record(full.as_slice(), 0) {
            RecordParse::Decoded(rec, _) => {
                if rec.offset >= offset {
                    out.push(rec);
                }
            },
            RecordParse::Malformed => {
                return None;
            },
            _ => {},
        }
        proof {
            assert(records_view(out@) =~= batch_fallback(self@.log, p as int, offset).0);
        }
        Some(out)
    }

    /// Read records from `offset` on, within about `max_bytes` of records,
    /// or `None` where the read panics (on bytes that do not hold a whole
    /// record).
    ///
    /// The records are decoded in order from the one at `offset`; each next
    /// one is kept while the lengths of those kept stay within `max_bytes`.
    /// The first one is kept whatever its length. Offsets outside
    /// `[base_offset, next_offset)`, or that the index does not record, give
    /// no records.
    pub fn try_read_batch(&self, offset: u64, max_bytes: u32) -> (r: Option<Vec<Record>>)
        ensures
            r is None <==> read_batch_outcome(self@, offset, max_bytes).1,
            r matches Some(recs) ==> records_view(recs@) == read_batch_outcome(
                self@,
                offset,
                max_bytes,
            ).0,
    {
        let mut records: Vec<Record> = Vec::new();
        if offset < self.base_offset || offset >= self.next_offset {
            proof {
                assert(records_view(records@) =~= Seq::<RecordView>::empty());
            }
            return Some(records);
        }
        let position = match self.index.lookup(offset) {
            Some(p) => p,
            None => {
                proof {
                    assert(records_view(records@) =~= Seq::<RecordView>::empty());
                }
                return Some(records);
            },
        };
        let len = self.log.len();
        let read_size: u64 = if (max_bytes as u64) < 1048576 {
            1048576
        } else {
            max_bytes as u64
        };
        let w = if position >= len as u64 {
            Vec::new()
        } else {
            let p = position as usize;
            let end = if (len - p) as u64 > read_size {
                p + read_size as usize
            } else {
                len
            };
            copy_range(self.log.as_slice(), p, end)
        };
        proof {
            assert(w@ =~= window(self@.log, position as int, batch_read_size(max_bytes)));
            assert(records_view(records@) =~= Seq::<RecordView>::empty());
        }
        let wlen = w.len();
        let mut pos: usize = 0;
        let mut total: u64 = 0;
        loop
            invariant
                wlen == w@.len(),
                pos <= wlen,
                total <= u32::MAX,
                records@.len() == 0 ==> total == 0,
                batch_loop(w@, 0, offset, max_bytes, 0, Seq::empty()) == batch_loop(
                    w@,
                    pos as int,
                    offset,
                    max_bytes,
                    total as int,
                    records_view(records@),
                ),
                batch_loop(w@, 0, offset, max_bytes, 0, Seq::empty()).1 ==> read_batch_outcome(
                    self@,
                    offset,
                    max_bytes,
                ).1,
            ensures
                batch_loop(w@, 0, offset, max_bytes, 0, Seq::empty()) == (records_view(records@), false),
            decreases wlen - pos,
        {
            proof {
                assert(w@.skip(pos as int).len() == wlen - pos);
            }
            if wlen - pos < 4 {
                break ;
            }
            let rl = get_u32(w.as_slice(), pos);
            proof {
                let s = w@.skip(pos as int);
                assert(be32_at(s, 0) == rl) by {
                    assert(s[0] == w@[pos as int] && s[1] == w@[pos + 1] && s[2] == w@[pos + 2]
                        && s[3] == w@[pos + 3]);
                }
            }
            if ((wlen - pos) as u64) < (rl as u64) {
                break ;
            }
            let over = if total > max_bytes as u64 {
                true
            } else {
                rl as u64 > max_bytes as u64 - total
            };
            if over && records.len() > 0 {
                break ;
            }
            match parse_record(w.as_slice(), pos) {
                RecordParse::Decoded(rec, n) => {
                    proof {
                        crate::storage::segment::lemma_decoded_len(w@.skip(pos as int));
                    }
                    if rec.offset >= offset {
                        let ghost before = records_view(records@);
                        records.push(rec);
                        proof {
                            assert(records_view(records@) =~= before.push(rec@));
                        }
                        total = total + rl as u64;
                    }
                    pos = pos + n;
                },
                RecordParse::Malformed => {
                    proof {
                        assert(batch_loop(
                            w@,
                            pos as int,
                            offset,
                            max_bytes,
                            total as int,
                            records_view(records@),
                        ).1);
                    }
                    return None;
                },
                _ => {
                    break ;
                },
            }
        }
        if records.len() == 0 && wlen > 0 {
            return self.batch_fallback(position, offset);
        }
        Some(records)
    }

    /// Read records from `offset` on, within about `max_bytes` of records;
    /// see `try_read_batch`. This never fails.
    pub fn read_batch(&self, offset: u64, max_bytes: u32) -> (r: Result<Vec<Record>, RukaError>)
        requires
            !read_batch_outcome(self@, offset, max_bytes).1,
        ensures
            r matches Ok(recs) && records_view(recs@) == read_batch_outcome(self@, offset, max_bytes).0,
    {
        match self.try_read_batch(offset, max_bytes) {
            Some(recs) => Ok(recs),
            None => Ok(Vec::new()),
        }
    }

    /// Append the first payloads of a batch that fit, as records with no
    /// key and the given timestamp.
    ///
    /// Payloads are taken in order while their records fit within the size
    /// limit; returns the offset of the first and how many were written. An
    /// empty batch writes nothing. A record longer than the limit is
    /// `MessageTooLarge`; when not even the first fits, `SegmentFull`. A
    /// failed append changes nothing.
    pub fn append_batch_at(&mut self, payloads: &[Vec<u8>], timestamp_ms: u64) -> (r: Result<
        (u64, usize),
        RukaError,
    >)
        requires
            forall|j: int| 0 <= j < payloads@.len() ==> 28 + #[trigger] payloads@[j]@.len() <= usize::MAX,
            batch_plan(payloads_view(payloads@), 0, old(self)@.log.len() as int, old(self)@.max_bytes) matches BatchPlan::Take(k)
                ==> old(self)@.next_offset + k <= u64::MAX,
        ensures
            match batch_plan(payloads_view(payloads@), 0, old(self)@.log.len() as int, old(self)@.max_bytes) {
                BatchPlan::TooLarge => r matches Err(RukaError::MessageTooLarge) && final(self)@ == old(self)@,
                BatchPlan::Full => r == Err::<(u64, usize), RukaError>(
                    RukaError::SegmentFull { current: old(self)@.log.len() as u64, max: old(self)@.max_bytes },
                ) && final(self)@ == old(self)@,
                BatchPlan::Take(k) => r == Ok::<(u64, usize), RukaError>((old(self)@.next_offset, k as usize))
                    && final(self)@ == appended_all(
                    old(self)@,
                    batch_records(payloads_view(payloads@), k, old(self)@.next_offset, timestamp_ms),
                ),
            },
    {
        let ghost ps = payloads_view(payloads@);
        let n = payloads.len();
        let max = self.max_bytes;
        let current_size = self.log.len();
        let mut pos: u64 = current_size as u64;
        let mut count: usize = 0;
        while count < n
            invariant
                n == payloads@.len() == ps.len(),
                ps == payloads_view(payloads@),
                count <= n,
                max == old(self)@.max_bytes,
                current_size == old(self)@.log.len(),
                self@ == old(self)@,
                batch_plan(ps, 0, current_size as int, max) == batch_plan(ps, count as nat, pos as int, max),
                count == 0 ==> pos == current_size,
            ensures
                batch_plan(ps, 0, current_size as int, max) == BatchPlan::Take(count as nat),
            decreases n - count,
        {
            proof {
                lemma_batch_plan_bounds(ps, count as nat, pos as int, max);
            }
            let len = payloads[count].len();
            if max < 28 || len as u64 > max - 28 {
                return Err(RukaError::MessageTooLarge);
            }
            let rl = len as u64 + 28;
            if pos > max - rl {
                if count > 0 {
                    break ;
                } else {
                    return Err(RukaError::SegmentFull { current: current_size as u64, max });
                }
            }
            pos = pos + rl;
            count = count + 1;
        }
        proof {
            lemma_batch_plan_bounds(ps, 0, current_size as int, max);
        }
        let first = self.next_offset;
        let ghost recs = batch_records(ps, count as nat, first, timestamp_ms);
        let mut j: usize = 0;
        while j < count
            invariant
                count <= n == payloads@.len() == ps.len(),
                ps == payloads_view(payloads@),
                j <= count,
                first == old(self)@.next_offset,
                first + count <= u64::MAX,
                recs == batch_records(ps, count as nat, first, timestamp_ms),
                self@ == appended_all(old(self)@, recs.take(j as int)),
                self@.next_offset == first + j,
                forall|i: int| 0 <= i < payloads@.len() ==> 28 + #[trigger] payloads@[i]@.len() <= usize::MAX,
            decreases count - j,
        {
            let position = self.log.len() as u64;
            encode_value_record(&mut self.log, self.next_offset, timestamp_ms, payloads[j].as_slice());
            self.index.append(self.next_offset, position);
            self.next_offset = self.next_offset + 1;
            proof {
                assert(recs.take(j + 1).drop_last() =~= recs.take(j as int));
                assert(recs.take(j + 1).last() == recs[j as int]);
            }
            j = j + 1;
        }
        proof {
            assert(recs.take(count as int) =~= recs);
        }
        Ok((first, count))
    }

    /// Append the first payloads of a batch that fit, stamped with the
    /// current time; see `append_batch_at`.
    pub fn append_batch(&mut self, payloads: &[Vec<u8>]) -> (r: Result<(u64, usize), RukaError>)
        requires
            forall|j: int| 0 <= j < payloads@.len() ==> 28 + #[trigger] payloads@[j]@.len() <= usize::MAX,
            batch_plan(payloads_view(payloads@), 0, old(self)@.log.len() as int, old(self)@.max_bytes) matches BatchPlan::Take(k)
                ==> old(self)@.next_offset + k <= u64::MAX,
        ensures
            match batch_plan(payloads_view(payloads@), 0, old(self)@.log.len() as int, old(self)@.max_bytes) {
                BatchPlan::TooLarge => r matches Err(RukaError::MessageTooLarge) && final(self)@ == old(self)@,
                BatchPlan::Full => r == Err::<(u64, usize), RukaError>(
                    RukaError::SegmentFull { current: old(self)@.log.len() as u64, max: old(self)@.max_bytes },
                ) && final(self)@ == old(self)@,
                BatchPlan::Take(k) => r == Ok::<(u64, usize), RukaError>((old(self)@.next_offset, k as usize))
                    && exists|ts: u64| final(self)@ == appended_all(
                    old(self)@,
                    #[trigger] batch_records(payloads_view(payloads@), k, old(self)@.next_offset, ts),
                ),
            },
    {
        if payloads.len() == 0 {
            let ghost recs = batch_records(payloads_view(payloads@), 0, old(self)@.next_offset, 0);
            proof {
                assert(recs =~= Seq::<RecordView>::empty());
                assert(appended_all(old(self)@, recs) == old(self)@);
            }
            return Ok((self.next_offset, 0));
        }
        let timestamp_ms = crate::clock::now_ms();
        self.append_batch_at(payloads, timestamp_ms)
    }

    /// Read exactly the record whose length field is at `p`.
    fn exact_read(&self, p: u64) -> (r: Option<Result<Option<Record>, RukaError>>)
        ensures
            read_try_matches(r, exact_read(self@.log, p as int)),
    {
        let len = self.log.len();
        if len < 4 || p > (len - 4) as u64 {
            return Some(Err(eof_error()));
        }
        let p = p as usize;
        let rl = get_u32(self.log.as_slice(), p) as usize;
        if rl < 4 {
            return None;
        }
        if rl > len - p {
            return Some(Err(eof_error()));
        }
        let full = copy_range(self.log.as_slice(), p, p + rl);
        proof {
            assert(full@.skip(0) =~= full@);
        }
        match parse_record(full.as_slice(), 0) {
            RecordParse::Decoded(rec, _) => Some(Ok(Some(rec))),
            RecordParse::Incomplete => Some(Ok(None)),
            RecordParse::TooSmall => Some(Err(too_small_error())),
            RecordParse::Malformed => None,
        }
    }

    /// Read the record with exactly the given offset, or `None` where the
    /// read panics (on bytes there that do not hold a whole record).
    ///
    /// Offsets outside `[base_offset, next_offset)` and offsets the index
    /// does not record give `Ok(None)`.
    pub fn try_read_at(&self, offset: u64) -> (r: Option<Result<Option<Record>, RukaError>>)
        ensures
            read_try_matches(r, read_at_outcome(self@, offset)),
    {
        if offset < self.base_offset || offset >= self.next_offset {
            return Some(Ok(None));
        }
        let position = match self.index.lookup(offset) {
            Some(p) => p,
            None => return Some(Ok(None)),
        };
        let len = self.log.len();
        let w = if position >= len as u64 {
            Vec::new()
        } else {
            let p = position as usize;
            let end = if len - p > 4096 {
                p + 4096
            } else {
                len
            };
            copy_range(self.log.as_slice(), p, end)
        };
        proof {
            assert(w@ =~= window(self@.log, position as int, 4096));
            assert(w@.skip(0) =~= w@);
        }
        match parse_record(w.as_slice(), 0) {
            RecordParse::Decoded(rec, _) => {
                if rec.offset == offset {
                    return Some(Ok(Some(rec)));
                }
            },
            RecordParse::TooSmall => {
                return Some(Err(too_small_error()));
            },
            RecordParse::Malformed => {
                return None;
            },
            RecordParse::Incomplete => {},
        }
        self.exact_read(position)
    }

    /// Read the record with exactly the given offset; see `try_read_at`.
    pub fn read_at(&self, offset: u64) -> (r: Result<Option<Record>, RukaError>)
        requires
            !(read_at_outcome(self@, offset) is Panics),
        ensures
            read_result_matches(r, read_at_outcome(self@, offset)),
    {
        match self.try_read_at(offset) {
            Some(r) => r,
            None => Ok(None),
        }
    }

    /// Rebuild a segment from the bytes of its log file and the index read
    /// from its index file (or the error reading it gave).
    ///
    /// The log is scanned record by record; anything after the last whole
    /// record is cut off. The next offset follows the last record. The
    /// loaded index is used unless it is unreadable or empty while the log is
    /// not, in which case it is rebuilt from the scanned records.
    ///
    /// Where loading the log panics (a record whose key or value runs past
    /// the log, or whose offset leaves no next offset), this gives `None`.
    pub fn try_load(
        base_offset: u64,
        max_bytes: u64,
        sync_level: SyncLevel,
        log: Vec<u8>,
        index: Result<Index, RukaError>,
    ) -> (r: Option<Segment>)
        ensures
            r is None <==> load_panics(log@, 0),
            r matches Some(seg) ==> seg@ == reloaded(base_offset, max_bytes, sync_level, log@, index),
    {
        let ghost initial_index = read_entries(index);
        let mut idx = match index {
            Ok(i) => i,
            Err(_) => Index::create(),
        };
        let file_len = log.len();
        let rebuild = idx.entry_count() == 0 && file_len > 0;
        let mut pos: usize = 0;
        let mut current_offset = base_offset;
        let ghost mut scanned: Seq<(RecordView, int)> = Seq::empty();
        loop
            invariant
                0 <= pos <= file_len == log@.len(),
                scan_records(log@, 0) == scanned + scan_records(log@, pos as int),
                scan_end(log@, 0) == scan_end(log@, pos as int),
                load_panics(log@, 0) == load_panics(log@, pos as int),
                current_offset == next_after(scanned, base_offset),
                idx@ == (if rebuild {
                    initial_index + scan_entries(scanned)
                } else {
                    initial_index
                }),
                rebuild == (initial_index.len() == 0 && file_len > 0),
            ensures
                scan_records(log@, pos as int) == Seq::<(RecordView, int)>::empty(),
                scan_end(log@, pos as int) == pos,
                !load_panics(log@, pos as int),
            decreases file_len - pos,
        {
            match parse_record(log.as_slice(), pos) {
                RecordParse::Decoded(rec, n) => {
                    proof {
                        lemma_decoded_len(log@.skip(pos as int));
                    }
                    if rec.offset == u64::MAX {
                        return None;
                    }
                    if rebuild {
                        idx.append(rec.offset, pos as u64);
                    }
                    proof {
                        let ghost item = (rec@, pos as int);
                        assert(scan_records(log@, pos as int) == seq![item] + scan_records(
                            log@,
                            pos + n,
                        ));
                        assert(scanned + (seq![item] + scan_records(log@, pos + n)) =~= scanned.push(
                            item,
                        ) + scan_records(log@, pos + n));
                        assert(scan_entries(scanned.push(item)) =~= scan_entries(scanned).push(
                            IndexEntry { offset: rec.offset, position: pos as u64 },
                        ));
                        scanned = scanned.push(item);
                    }
                    pos = pos + n;
                    current_offset = rec.offset + 1;
                },
                RecordParse::Malformed => {
                    return None;
                },
                _ => {
                    break ;
                },
            }
        }
        proof {
            assert(scanned + Seq::<(RecordView, int)>::empty() =~= scanned);
        }
        let mut kept = log;
        kept.truncate(pos);
        Some(
            Segment {
                base_offset,
                log: kept,
                index: idx,
                next_offset: current_offset,
                max_bytes,
                sync_level,
            },
        )
    }

    /// Rebuild a segment from the bytes of its log file and the index read
    /// from its index file (or the error reading it gave); see `try_load`.
    pub fn load(
        base_offset: u64,
        max_bytes: u64,
        sync_level: SyncLevel,
        log: Vec<u8>,
        index: Result<Index, RukaError>,
    ) -> (r: Segment)
        requires
            !load_panics(log@, 0),
        ensures
            r@ == reloaded(base_offset, max_bytes, sync_level, log@, index),
    {
        match Segment::try_load(base_offset, max_bytes, sync_level, log, index) {
            Some(seg) => seg,
            None => Segment::create(base_offset, max_bytes, sync_level),
        }
    }

    /// A new, empty segment whose first record will get `base_offset`.
    pub fn create(base_offset: u64, max_bytes: u64, sync_level: SyncLevel) -> (r: Segment)
        ensures
            r@ == (SegmentView {
                base_offset,
                log: Seq::empty(),
                index: Seq::empty(),
                next_offset: base_offset,
                max_bytes,
                sync_level,
            }),
            segment_kept(r@),
            segment_records(r@) == Seq::<RecordView>::empty(),
    {
        let seg = Segment {
            base_offset,
            log: Vec::new(),
            index: Index::create(),
            next_offset: base_offset,
            max_bytes,
            sync_level,
        };
        proof {
            law_segment_created(seg@);
        }
        seg
    }

    /// Append a record with the given timestamp and return its offset.
    ///
    /// A record longer than the segment's limit is `MessageTooLarge`; one that
    /// does not fit after what the segment holds is `SegmentFull`. A failed
    /// append changes nothing.
    pub fn append_at(&mut self, key: Option<Vec<u8>>, value: Option<Vec<u8>>, timestamp_ms: u64) -> (r:
        Result<u64, RukaError>)
        requires
            append_outcome(old(self)@, opt_view(key), opt_view(value)) is Ok ==> old(self)@.next_offset
                < u64::MAX,
            28 + opt_len(opt_view(key)) + opt_len(opt_view(value)) <= usize::MAX,
        ensures
            r == append_outcome(old(self)@, opt_view(key), opt_view(value)),
            final(self)@ == (if r is Ok {
                appended(old(self)@, new_record(old(self)@, opt_view(key), opt_view(value), timestamp_ms))
            } else {
                old(self)@
            }),
            segment_kept(old(self)@) && 28 + opt_len(opt_view(key)) + opt_len(opt_view(value))
                <= u32::MAX ==> segment_kept(final(self)@) && segment_records(final(self)@) == (if r is Ok {
                segment_records(old(self)@).push(
                    new_record(old(self)@, opt_view(key), opt_view(value), timestamp_ms),
                )
            } else {
                segment_records(old(self)@)
            }),
    {
        let key_len: usize = match &key {
            Some(k) => k.len(),
            None => 0,
        };
        let val_len: usize = match &value {
            Some(v) => v.len(),
            None => 0,
        };
        let record_len: usize = 4 + 8 + 8 + 4 + key_len + 4 + val_len;
        let current_size = self.log.len();
        if record_len as u64 > self.max_bytes {
            return Err(RukaError::MessageTooLarge);
        }
        if current_size as u64 > self.max_bytes - record_len as u64 && current_size > 0 {
            return Err(RukaError::SegmentFull { current: current_size as u64, max: self.max_bytes });
        }
        let ghost before = self@;
        proof {
            if segment_kept(before) && 28 + opt_len(opt_view(key)) + opt_len(opt_view(value))
                <= u32::MAX {
                law_segment_append(before, opt_view(key), opt_view(value), timestamp_ms);
            }
        }
        let offset = self.next_offset;
        let record = Record { offset, timestamp_ms, key, value };
        record.encode(&mut self.log);
        self.index.append(offset, current_size as u64);
        self.next_offset = self.next_offset + 1;
        Ok(offset)
    }

    /// Append a record stamped with the current time and return its offset.
    pub fn append(&mut self, key: Option<Vec<u8>>, value: Option<Vec<u8>>) -> (r: Result<
        u64,
        RukaError,
    >)
        requires
            append_outcome(old(self)@, opt_view(key), opt_view(value)) is Ok ==> old(self)@.next_offset
                < u64::MAX,
            28 + opt_len(opt_view(key)) + opt_len(opt_view(value)) <= usize::MAX,
        ensures
            r == append_outcome(old(self)@, opt_view(key), opt_view(value)),
            r is Ok ==> exists|ts: u64|
                final(self)@ == appended(
                    old(self)@,
                    #[trigger] new_record(old(self)@, opt_view(key), opt_view(value), ts),
                ) && (segment_kept(old(self)@) && 28 + opt_len(opt_view(key)) + opt_len(
                    opt_view(value),
                ) <= u32::MAX ==> segment_records(final(self)@) == segment_records(old(self)@).push(
                    new_record(old(self)@, opt_view(key), opt_view(value), ts),
                )),
            r is Err ==> final(self)@ == old(self)@,
            segment_kept(old(self)@) && 28 + opt_len(opt_view(key)) + opt_len(opt_view(value))
                <= u32::MAX ==> segment_kept(final(self)@),
    {
        let timestamp_ms = crate::clock::now_ms();
        self.append_at(key, value, timestamp_ms)
    }

    /// The offset of the first record this segment was created for.
    pub fn base_offset(&self) -> (r: u64)
        ensures
            r == self@.base_offset,
    {
        self.base_offset
    }

    /// The offset the next appended record will get.
    pub fn next_offset(&self) -> (r: u64)
        ensures
            r == self@.next_offset,
    {
        self.next_offset
    }

    /// Whether the log has reached the size limit.
    pub fn is_full(&self) -> (r: bool)
        ensures
            r == (self@.log.len() >= self@.max_bytes),
    {
        self.log.len() as u64 >= self.max_bytes
    }

    /// The bytes of the log.
    pub fn log_bytes(&self) -> (r: &[u8])
        ensures
            r@ == self@.log,
    {
        self.log.as_slice()
    }

    /// The index.
    pub fn index(&self) -> (r: &Index)
        ensures
            r@ == self@.index,
    {
        &self.index
    }

    /// The size limit in bytes.
    pub fn max_bytes(&self) -> (r: u64)
        ensures
            r == self@.max_bytes,
    {
        self.max_bytes
    }

    /// How the segment's files are synced after writes.
    pub fn sync_level(&self) -> (r: SyncLevel)
        ensures
            r == self@.sync_level,
    {
        self.sync_level
    }
}

} // verus!
