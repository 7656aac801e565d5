//! Partitions: an ordered run of segments, with rotation.
//!
//! All writes go to the active (last) segment. When it has no room for a
//! record, a new segment starting at the next offset becomes the active one.
use vstd::prelude::*;
use crate::config::SyncLevel;
use crate::error::RukaError;
use crate::storage::record::{opt_len, opt_view, Record, RecordView};
use crate::storage::segment::{
    append_outcome, appended, appended_all, batch_plan, batch_records, lemma_batch_plan_bounds,
    new_record, read_at_outcome, read_batch_outcome, read_result_matches, read_try_matches,
    records_view,
    BatchPlan, ReadOutcome, Segment, SegmentView,
};
use crate::protocol::request::payloads_view;
use crate::wire::copy_range;
use crate::storage::contents::{
    batch_fits, batch_kept, law_partition_append, law_partition_batch, law_partition_created,
    partition_kept, partition_records,
};

verus! {

/// An ordered run of segments holding one topic partition's records.
pub struct Partition {
    /// The topic this partition belongs to.
    pub topic: String,
    /// The partition's number within its topic.
    pub id: u32,
    segments: Vec<Segment>,
    sorted: bool,
    max_segment_bytes: u64,
    sync_level: SyncLevel,
}

/// The state of a partition.
pub struct PartitionView {
    pub topic: Seq<char>,
    pub id: u32,
    /// The segments, oldest first; the last is the active one.
    pub segments: Seq<SegmentView>,
    pub max_segment_bytes: u64,
    pub sync_level: SyncLevel,
}

/// The states of a run of segments.
pub open spec fn segment_views(s: Seq<Segment>) -> Seq<SegmentView> {
    Seq::new(s.len(), |i: int| s[i]@)
}

impl View for Partition {
    type V = PartitionView;

    closed spec fn view(&self) -> PartitionView {
        PartitionView {
            topic: self.topic@,
            id: self.id,
            segments: segment_views(self.segments@),
            max_segment_bytes: self.max_segment_bytes,
            sync_level: self.sync_level,
        }
    }
}

/// Base offsets that never decrease along the run.
pub open spec fn bases_sorted(s: Seq<SegmentView>) -> bool {
    forall|i: int, j: int| 0 <= i < j < s.len() ==> s[i].base_offset <= s[j].base_offset
}

/// Among the first `n` segments, the last whose base offset is at most `o`.
pub open spec fn last_base_at_most(s: Seq<SegmentView>, o: u64, n: int) -> Option<int>
    decreases n,
{
    if n <= 0 {
        None
    } else if s[n - 1].base_offset <= o {
        Some(n - 1)
    } else {
        last_base_at_most(s, o, n - 1)
    }
}

/// The segment found lies among the first `n`.
pub proof fn lemma_last_base_range(s: Seq<SegmentView>, o: u64, n: int)
    ensures
        match last_base_at_most(s, o, n) {
            Some(k) => 0 <= k < n && s[k].base_offset <= o,
            None => true,
        },
    decreases n,
{
    if n > 0 {
        lemma_last_base_range(s, o, n - 1);
    }
}

/// The segment that should hold offset `o`: the last whose base is at most `o`.
pub open spec fn segment_for(s: Seq<SegmentView>, o: u64) -> Option<int> {
    last_base_at_most(s, o, s.len() as int)
}

/// A new, empty segment.
pub open spec fn fresh_segment(base: u64, max_bytes: u64, sync_level: SyncLevel) -> SegmentView {
    SegmentView {
        base_offset: base,
        log: Seq::empty(),
        index: Seq::empty(),
        next_offset: base,
        max_bytes,
        sync_level,
    }
}

/// Where a stable insertion by base offset puts a segment into a sorted run:
/// after every segment whose base is not above its own.
pub open spec fn insert_at(s: Seq<SegmentView>, x: SegmentView, k: int) -> int
    decreases s.len() - k,
{
    if k < 0 || k >= s.len() {
        s.len() as int
    } else if s[k].base_offset > x.base_offset {
        k
    } else {
        insert_at(s, x, k + 1)
    }
}

/// The segments sorted by base offset, keeping the given order among equal bases.
pub open spec fn sort_by_base(s: Seq<SegmentView>) -> Seq<SegmentView>
    decreases s.len(),
{
    if s.len() == 0 {
        Seq::empty()
    } else {
        let t = sort_by_base(s.drop_last());
        t.insert(insert_at(t, s.last(), 0), s.last())
    }
}

/// A copy of an optional byte vector.
fn copy_opt(o: &Option<Vec<u8>>) -> (r: Option<Vec<u8>>)
    ensures
        opt_view(r) == opt_view(*o),
{
    match o {
        Some(v) => Some(copy_range(v.as_slice(), 0, v.len())),
        None => None,
    }
}

/// Where a stable insertion puts a segment: after those with a base not above
/// its own, before the rest.
pub proof fn lemma_insert_at(s: Seq<SegmentView>, x: SegmentView, k: int)
    requires
        0 <= k <= s.len(),
        bases_sorted(s),
        forall|j: int| 0 <= j < k ==> s[j].base_offset <= x.base_offset,
    ensures
        k <= insert_at(s, x, k) <= s.len(),
        forall|j: int| 0 <= j < insert_at(s, x, k) ==> s[j].base_offset <= x.base_offset,
        forall|j: int| insert_at(s, x, k) <= j < s.len() ==> s[j].base_offset > x.base_offset,
    decreases s.len() - k,
{
    if k < s.len() && s[k].base_offset <= x.base_offset {
        lemma_insert_at(s, x, k + 1);
    }
}

/// Sorting by base gives non-decreasing bases and keeps the length.
pub proof fn lemma_sort_by_base(s: Seq<SegmentView>)
    ensures
        bases_sorted(sort_by_base(s)),
        sort_by_base(s).len() == s.len(),
    decreases s.len(),
{
    if s.len() > 0 {
        let t = sort_by_base(s.drop_last());
        lemma_sort_by_base(s.drop_last());
        let x = s.last();
        lemma_insert_at(t, x, 0);
        let k = insert_at(t, x, 0);
        let u = t.insert(k, x);
        assert forall|i: int, j: int| 0 <= i < j < u.len() implies u[i].base_offset
            <= u[j].base_offset by {
            if j < k {
            } else if j == k {
            } else if i < k {
                assert(u[j] == t[j - 1]);
            } else if i == k {
                assert(u[j] == t[j - 1]);
            } else {
                assert(u[i] == t[i - 1] && u[j] == t[j - 1]);
            }
        }
    }
}

/// In a run whose first `lo` of `n` segments start at or before `o` and the
/// rest after it, the last start at or before `o` is segment `lo - 1`.
pub proof fn lemma_last_base_sorted(s: Seq<SegmentView>, o: u64, n: int, lo: int)
    requires
        0 <= lo <= n <= s.len(),
        forall|k: int| 0 <= k < lo ==> s[k].base_offset <= o,
        forall|k: int| lo <= k < n ==> s[k].base_offset > o,
    ensures
        last_base_at_most(s, o, n) == (if lo == 0 {
            None::<int>
        } else {
            Some(lo - 1)
        }),
    decreases n,
{
    if n > lo {
        lemma_last_base_sorted(s, o, n - 1, lo);
    }
}

/// What appending a record to a partition gives: the active segment's
/// answer, or, when it is full, the answer of a new segment that starts at
/// the next offset.
pub open spec fn partition_append_outcome(
    pv: PartitionView,
    key: Option<Seq<u8>>,
    value: Option<Seq<u8>>,
) -> Result<u64, RukaError> {
    let last = pv.segments.last();
    match append_outcome(last, key, value) {
        Err(RukaError::SegmentFull { .. }) => append_outcome(
            fresh_segment(last.next_offset, pv.max_segment_bytes, pv.sync_level),
            key,
            value,
        ),
        other => other,
    }
}

/// The segments after appending a record with timestamp `ts` to a partition.
/// When the active segment is full, a new segment starting at its next
/// offset is added, and the record goes there if it fits.
pub open spec fn partition_appended(
    pv: PartitionView,
    key: Option<Seq<u8>>,
    value: Option<Seq<u8>>,
    ts: u64,
) -> Seq<SegmentView> {
    let n = pv.segments.len() as int;
    let last = pv.segments.last();
    match append_outcome(last, key, value) {
        Ok(_) => pv.segments.update(n - 1, appended(last, new_record(last, key, value, ts))),
        Err(RukaError::SegmentFull { .. }) => {
            let f = fresh_segment(last.next_offset, pv.max_segment_bytes, pv.sync_level);
            match append_outcome(f, key, value) {
                Ok(_) => pv.segments.push(appended(f, new_record(f, key, value, ts))),
                Err(_) => pv.segments.push(f),
            }
        },
        Err(_) => pv.segments,
    }
}

/// Adding a segment keeps the bases in order exactly when its base is not
/// below the last one.
proof fn lemma_bases_push(s: Seq<SegmentView>, x: SegmentView)
    requires
        s.len() > 0,
    ensures
        bases_sorted(s.push(x)) == (bases_sorted(s) && s.last().base_offset <= x.base_offset),
{
    let t = s.push(x);
    if bases_sorted(s) && s.last().base_offset <= x.base_offset {
        assert forall|i: int, j: int| 0 <= i < j < t.len() implies t[i].base_offset
            <= t[j].base_offset by {
            if j == s.len() && i < s.len() - 1 {
                assert(s[i].base_offset <= s[s.len() - 1].base_offset);
            }
        }
    }
    if bases_sorted(t) {
        assert forall|i: int, j: int| 0 <= i < j < s.len() implies s[i].base_offset
            <= s[j].base_offset by {
            assert(t[i] == s[i] && t[j] == s[j]);
        }
        assert(t[s.len() - 1] == s.last());
        assert(t[s.len() as int] == x);
    }
}

/// How a batch append over a partition ends.
pub enum BatchRun {
    /// Every payload was written; the segments afterwards.
    Done(Seq<SegmentView>),
    /// A payload's record is longer than a segment's limit; the segments
    /// afterwards, holding the chunks written before it.
    Failed(Seq<SegmentView>),
    /// More rounds are needed than timestamps were given.
    Unfinished,
}

/// One round of a batch append over a partition, with timestamp `ts`: the
/// segments afterwards, the payloads left, and whether the round failed.
///
/// The round hands the payloads to the active segment. Those that fit are
/// written with the timestamp; if some are left, or if the active segment
/// was full, a new segment starting at its next offset becomes the active
/// one. A payload whose record is longer than the segment's limit fails
/// the round, which then changes nothing.
pub open spec fn batch_step(
    segs: Seq<SegmentView>,
    ps: Seq<Seq<u8>>,
    ts: u64,
    max: u64,
    sync_level: SyncLevel,
) -> (Seq<SegmentView>, Seq<Seq<u8>>, bool) {
    let last = segs.last();
    match batch_plan(ps, 0, last.log.len() as int, last.max_bytes) {
        BatchPlan::TooLarge => (segs, ps, true),
        BatchPlan::Full => (segs.push(fresh_segment(last.next_offset, max, sync_level)), ps, false),
        BatchPlan::Take(k) => {
            let filled = appended_all(last, batch_records(ps, k, last.next_offset, ts));
            let segs2 = segs.update(segs.len() - 1, filled);
            let rest = ps.skip(k as int);
            if rest.len() == 0 {
                (segs2, rest, false)
            } else {
                (segs2.push(fresh_segment(filled.next_offset, max, sync_level)), rest, false)
            }
        },
    }
}

/// A batch append over a partition: rounds, one per timestamp in `tss`,
/// until no payload is left or a round fails.
pub open spec fn batch_run(
    segs: Seq<SegmentView>,
    ps: Seq<Seq<u8>>,
    tss: Seq<u64>,
    max: u64,
    sync_level: SyncLevel,
) -> BatchRun
    decreases tss.len(),
{
    if ps.len() == 0 {
        BatchRun::Done(segs)
    } else if tss.len() == 0 {
        BatchRun::Unfinished
    } else {
        let step = batch_step(segs, ps, tss[0], max, sync_level);
        if step.2 {
            BatchRun::Failed(step.0)
        } else {
            batch_run(step.0, step.1, tss.drop_first(), max, sync_level)
        }
    }
}

/// Whether a round's result and the segments after it agree with `step`.
pub open spec fn round_result(
    step: (Seq<SegmentView>, Seq<Seq<u8>>, bool),
    segs: Seq<SegmentView>,
    r: Result<(Option<u64>, Vec<Vec<u8>>), RukaError>,
) -> bool {
    &&& segs == step.0
    &&& match r {
        Ok((_, rest)) => !step.2 && payloads_view(rest@) == step.1,
        Err(e) => step.2 && e == RukaError::MessageTooLarge,
    }
}

/// Whether the active segment holds any bytes, as a number.
pub open spec fn active_used(segs: Seq<SegmentView>) -> int {
    if segs.last().log.len() > 0 {
        1
    } else {
        0
    }
}

/// A full segment is not empty, and a plan over a non-empty batch that
/// takes payloads takes at least one.
proof fn lemma_batch_plan_first(ps: Seq<Seq<u8>>, pos: int, max: u64)
    requires
        pos >= 0,
    ensures
        batch_plan(ps, 0, pos, max) is Full ==> pos > 0,
        batch_plan(ps, 0, pos, max) matches BatchPlan::Take(k) ==> k <= ps.len() && (ps.len() > 0
            ==> k >= 1),
{
    lemma_batch_plan_bounds(ps, 0, pos, max);
    if ps.len() > 0 {
        let rl = 28 + ps[0].len();
        if rl <= max && pos + rl <= max {
            lemma_batch_plan_bounds(ps, 1, pos + rl, max);
        }
    }
}

/// The next offset after appending records numbered on from the segment's
/// next offset.
proof fn lemma_appended_all_next(v: SegmentView, ps: Seq<Seq<u8>>, k: nat, ts: u64)
    requires
        v.next_offset + k <= u64::MAX,
    ensures
        appended_all(v, batch_records(ps, k, v.next_offset, ts)).next_offset == v.next_offset + k,
        appended_all(v, batch_records(ps, k, v.next_offset, ts)).base_offset == v.base_offset,
    decreases k,
{
    if k > 0 {
        let recs = batch_records(ps, k, v.next_offset, ts);
        assert(recs.drop_last() =~= batch_records(ps, (k - 1) as nat, v.next_offset, ts));
        lemma_appended_all_next(v, ps, (k - 1) as nat, ts);
    }
}

/// A run whose rounds so far led from `segs0` to `cur` goes on from `cur`
/// with the next round.
proof fn lemma_run_step(
    segs0: Seq<SegmentView>,
    ps0: Seq<Seq<u8>>,
    done: Seq<u64>,
    ts: u64,
    cur: Seq<SegmentView>,
    ps: Seq<Seq<u8>>,
    max: u64,
    sync_level: SyncLevel,
)
    requires
        ps.len() > 0,
        !batch_step(cur, ps, ts, max, sync_level).2,
        forall|f: Seq<u64>|
            #[trigger] batch_run(segs0, ps0, done + f, max, sync_level) == batch_run(
                cur,
                ps,
                f,
                max,
                sync_level,
            ),
    ensures
        forall|f: Seq<u64>|
            #[trigger] batch_run(segs0, ps0, done.push(ts) + f, max, sync_level) == batch_run(
                batch_step(cur, ps, ts, max, sync_level).0,
                batch_step(cur, ps, ts, max, sync_level).1,
                f,
                max,
                sync_level,
            ),
{
    assert forall|f: Seq<u64>|
        #[trigger] batch_run(segs0, ps0, done.push(ts) + f, max, sync_level) == batch_run(
            batch_step(cur, ps, ts, max, sync_level).0,
            batch_step(cur, ps, ts, max, sync_level).1,
            f,
            max,
            sync_level,
        ) by {
        let g = seq![ts] + f;
        assert(done.push(ts) + f =~= done + g);
        assert(g.drop_first() =~= f);
        assert(g[0] == ts);
        assert(batch_run(segs0, ps0, done + g, max, sync_level) == batch_run(
            cur,
            ps,
            g,
            max,
            sync_level,
        ));
    }
}

/// How much a record counts against a fetch budget: 28 bytes plus the
/// lengths of its key and value, each cut to 32 bits.
pub open spec fn budget_len(r: RecordView) -> int {
    28 + (opt_len(r.key) as u32) + (opt_len(r.value) as u32)
}

/// Where taking one segment's records into a fetch ends.
pub enum Take {
    /// The fetch is over: the records gathered, and whether it panicked.
    Stop(Seq<RecordView>, bool),
    /// All of the segment's records were taken: the records gathered, the
    /// budget left, and the offset after the last one.
    Continue(Seq<RecordView>, u32, u64),
}

/// Take a segment's records `recs` from the `i`-th on into `acc` while the
/// budget covers them; the first record of a fetch is taken whatever its
/// length, and ends the fetch when the budget does not cover it.
pub open spec fn take_records(
    recs: Seq<RecordView>,
    i: int,
    budget: u32,
    acc: Seq<RecordView>,
    o: u64,
) -> Take
    decreases recs.len() - i,
{
    if i < 0 || i >= recs.len() {
        Take::Continue(acc, budget, o)
    } else {
        let r = recs[i];
        let l = budget_len(r);
        if l > u32::MAX {
            Take::Stop(acc, true)
        } else if budget >= l {
            if r.offset == u64::MAX {
                Take::Stop(acc, true)
            } else {
                take_records(recs, i + 1, (budget - l) as u32, acc.push(r), (r.offset + 1) as u64)
            }
        } else if acc.len() == 0 {
            Take::Stop(acc.push(r), false)
        } else {
            Take::Stop(acc, false)
        }
    }
}

/// The base offset of segment `j`, or `o` past the last segment.
pub open spec fn next_base(segs: Seq<SegmentView>, j: int, o: u64) -> u64 {
    if 0 <= j < segs.len() {
        segs[j].base_offset
    } else {
        o
    }
}

/// A fetch from segment `idx` on, from offset `o`, with `budget` bytes
/// left and `acc` gathered: the records it gives, and whether it panics.
pub open spec fn batch_from(
    segs: Seq<SegmentView>,
    idx: int,
    o: u64,
    budget: u32,
    acc: Seq<RecordView>,
) -> (Seq<RecordView>, bool)
    decreases segs.len() - idx, 1int,
{
    if idx < 0 || idx >= segs.len() || budget == 0 {
        (acc, false)
    } else {
        let got = read_batch_outcome(segs[idx], o, budget);
        if got.1 {
            (acc, true)
        } else if got.0.len() == 0 {
            batch_from(segs, idx + 1, next_base(segs, idx + 1, o), budget, acc)
        } else {
            after_take(segs, idx, take_records(got.0, 0, budget, acc, o))
        }
    }
}

/// A fetch after taking the records of segment `idx`: over, or going on
/// with the next segment from its base offset.
pub open spec fn after_take(segs: Seq<SegmentView>, idx: int, t: Take) -> (Seq<RecordView>, bool)
    decreases segs.len() - idx, 0int,
{
    match t {
        Take::Stop(acc, p) => (acc, p),
        Take::Continue(acc, b, o) => if 0 <= idx < segs.len() {
            batch_from(segs, idx + 1, next_base(segs, idx + 1, o), b, acc)
        } else {
            (acc, false)
        },
    }
}

/// What reading one record from a partition gives: the read in the segment
/// that should hold the offset, or nothing when no segment should.
pub open spec fn partition_read_outcome(pv: PartitionView, o: u64) -> ReadOutcome {
    match segment_for(pv.segments, o) {
        None => ReadOutcome::Missing,
        Some(k) => read_at_outcome(pv.segments[k], o),
    }
}

/// What reading a batch from a partition gives from offset `o` with byte
/// budget `m`, starting at the segment that should hold `o`; and whether it
/// panics.
pub open spec fn partition_read_batch_outcome(pv: PartitionView, o: u64, m: u32) -> (
    Seq<RecordView>,
    bool,
) {
    match segment_for(pv.segments, o) {
        None => (Seq::empty(), false),
        Some(k) => batch_from(pv.segments, k, o, m, Seq::empty()),
    }
}

/// Runs whose segments have the same bases pairwise are in order together.
proof fn lemma_same_bases(s: Seq<SegmentView>, t: Seq<SegmentView>)
    requires
        s.len() == t.len(),
        forall|i: int| 0 <= i < s.len() ==> #[trigger] s[i].base_offset == t[i].base_offset,
    ensures
        bases_sorted(s) == bases_sorted(t),
{
    if bases_sorted(s) {
        assert forall|i: int, j: int| 0 <= i < j < t.len() implies t[i].base_offset
            <= t[j].base_offset by {
            assert(s[i].base_offset <= s[j].base_offset);
        }
    }
    if bases_sorted(t) {
        assert forall|i: int, j: int| 0 <= i < j < s.len() implies s[i].base_offset
            <= s[j].base_offset by {
            assert(t[i].base_offset <= t[j].base_offset);
        }
    }
}

impl Partition {
    /// Append a record (key, value) and return its offset, moving to a new
    /// segment when the active one is full.
    #[verifier::spinoff_prover]
    pub fn append(&mut self, key: Option<Vec<u8>>, value: Option<Vec<u8>>) -> (r: Result<
        u64,
        RukaError,
    >)
        requires
            old(self).wf(),
            partition_append_outcome(old(self)@, opt_view(key), opt_view(value)) is Ok
                ==> old(self)@.segments.last().next_offset < u64::MAX,
            28 + opt_len(opt_view(key)) + opt_len(opt_view(value)) <= usize::MAX,
        ensures
            final(self).wf(),
            final(self)@.topic == old(self)@.topic,
            final(self)@.id == old(self)@.id,
            final(self)@.max_segment_bytes == old(self)@.max_segment_bytes,
            final(self)@.sync_level == old(self)@.sync_level,
            r == partition_append_outcome(old(self)@, opt_view(key), opt_view(value)),
            exists|ts: u64|
                final(self)@.segments == #[trigger] partition_appended(
                    old(self)@,
                    opt_view(key),
                    opt_view(value),
                    ts,
                ) && (partition_kept(old(self)@.segments) && 28 + opt_len(opt_view(key)) + opt_len(
                    opt_view(value),
                ) <= u32::MAX ==> partition_records(final(self)@.segments) == match r {
                    Ok(o) => partition_records(old(self)@.segments).push(
                        RecordView { offset: o, timestamp_ms: ts, key: opt_view(key), value: opt_view(value) },
                    ),
                    Err(_) => partition_records(old(self)@.segments),
                }),
            partition_kept(old(self)@.segments) && 28 + opt_len(opt_view(key)) + opt_len(
                opt_view(value),
            ) <= u32::MAX ==> partition_kept(final(self)@.segments),
    {
        let ghost pv = self@;
        let ghost kv = opt_view(key);
        let ghost vv = opt_view(value);
        let mut active = self.segments.pop().unwrap();
        proof {
            assert(active@ == pv.segments.last());
        }
        let first = active.append(copy_opt(&key), copy_opt(&value));
        match first {
            Ok(offset) => {
                self.segments.push(active);
                let ghost ts = choose|ts: u64|
                    active@ == appended(pv.segments.last(), #[trigger] new_record(pv.segments.last(), kv, vv, ts));
                proof {
                    assert(segment_views(self.segments@) =~= partition_appended(pv, kv, vv, ts));
                    lemma_same_bases(pv.segments, segment_views(self.segments@));
                    if partition_kept(pv.segments) && 28 + opt_len(kv) + opt_len(vv) <= u32::MAX {
                        law_partition_append(pv, kv, vv, ts);
                    }
                }
                Ok(offset)
            },
            Err(RukaError::SegmentFull { .. }) => {
                let next_offset = active.next_offset();
                self.segments.push(active);
                let mut fresh = Segment::create(next_offset, self.max_segment_bytes, self.sync_level);
                let res = fresh.append(key, value);
                let ghost segs_before = segment_views(self.segments@);
                let keeps_order = self.segments[self.segments.len() - 1].base_offset() <= fresh.base_offset();
                self.segments.push(fresh);
                self.sorted = self.sorted && keeps_order;
                proof {
                    assert(segs_before =~= pv.segments);
                    lemma_bases_push(pv.segments, fresh@);
                    if res is Ok {
                        let ts = choose|ts: u64|
                            fresh@ == appended(
                                fresh_segment(next_offset, pv.max_segment_bytes, pv.sync_level),
                                #[trigger] new_record(
                                    fresh_segment(next_offset, pv.max_segment_bytes, pv.sync_level),
                                    kv,
                                    vv,
                                    ts,
                                ),
                            );
                        assert(segment_views(self.segments@) =~= partition_appended(pv, kv, vv, ts));
                        if partition_kept(pv.segments) && 28 + opt_len(kv) + opt_len(vv) <= u32::MAX {
                            law_partition_append(pv, kv, vv, ts);
                        }
                    } else {
                        assert(segment_views(self.segments@) =~= partition_appended(pv, kv, vv, 0));
                        if partition_kept(pv.segments) && 28 + opt_len(kv) + opt_len(vv) <= u32::MAX {
                            law_partition_append(pv, kv, vv, 0);
                        }
                    }
                }
                res
            },
            Err(e) => {
                self.segments.push(active);
                proof {
                    assert(segment_views(self.segments@) =~= partition_appended(pv, kv, vv, 0));
                    if partition_kept(pv.segments) && 28 + opt_len(kv) + opt_len(vv) <= u32::MAX {
                        law_partition_append(pv, kv, vv, 0);
                    }
                }
                Err(e)
            },
        }
    }

    /// Add a new, empty segment starting at `base` as the active one.
    fn push_fresh(&mut self, base: u64)
        requires
            old(self).wf(),
        ensures
            final(self).wf(),
            final(self)@.segments == old(self)@.segments.push(
                fresh_segment(base, old(self)@.max_segment_bytes, old(self)@.sync_level),
            ),
            final(self)@.topic == old(self)@.topic,
            final(self)@.id == old(self)@.id,
            final(self)@.max_segment_bytes == old(self)@.max_segment_bytes,
            final(self)@.sync_level == old(self)@.sync_level,
    {
        let ghost before = self@.segments;
        let fresh = Segment::create(base, self.max_segment_bytes, self.sync_level);
        let n = self.segments.len();
        proof {
            assert(before[n - 1] == self.segments@[n - 1]@);
        }
        let keeps_order = self.segments[n - 1].base_offset() <= base;
        self.segments.push(fresh);
        self.sorted = self.sorted && keeps_order;
        proof {
            assert(segment_views(self.segments@) =~= before.push(fresh@));
            lemma_bases_push(before, fresh@);
        }
    }

    /// One round of a batch append: write the payloads that fit into the
    /// active segment and return the offset of the first written, if any,
    /// with the payloads left.
    #[verifier::spinoff_prover]
    fn append_round(&mut self, payloads: Vec<Vec<u8>>) -> (r: Result<
        (Option<u64>, Vec<Vec<u8>>),
        RukaError,
    >)
        requires
            old(self).wf(),
            payloads@.len() > 0,
            old(self)@.segments.last().next_offset + payloads@.len() <= u64::MAX,
            forall|j: int|
                0 <= j < payloads@.len() ==> 28 + #[trigger] payloads@[j]@.len() <= usize::MAX,
        ensures
            final(self).wf(),
            final(self)@.topic == old(self)@.topic,
            final(self)@.id == old(self)@.id,
            final(self)@.max_segment_bytes == old(self)@.max_segment_bytes,
            final(self)@.sync_level == old(self)@.sync_level,
            exists|ts: u64|
                round_result(
                    #[trigger] batch_step(
                        old(self)@.segments,
                        payloads_view(payloads@),
                        ts,
                        old(self)@.max_segment_bytes,
                        old(self)@.sync_level,
                    ),
                    final(self)@.segments,
                    r,
                ),
            r matches Ok((first, rest)) ==> {
                &&& final(self)@.segments.last().next_offset + rest@.len() == old(
                    self,
                )@.segments.last().next_offset + payloads@.len()
                &&& forall|j: int|
                    0 <= j < rest@.len() ==> 28 + #[trigger] rest@[j]@.len() <= usize::MAX
                &&& 2 * rest@.len() + active_used(final(self)@.segments) < 2 * payloads@.len()
                    + active_used(old(self)@.segments)
                &&& first matches Some(b) ==> b == old(self)@.segments.last().next_offset
                &&& first is None ==> final(self)@.segments.last().next_offset == old(
                    self,
                )@.segments.last().next_offset
            },
    {
        let ghost cur = self@.segments;
        let ghost ps = payloads_view(payloads@);
        let ghost last = cur.last();
        let mut batch = payloads;
        let mut active = self.segments.pop().unwrap();
        proof {
            assert(active@ == last);
            assert(segment_views(self.segments@) =~= cur.drop_last());
            lemma_batch_plan_first(ps, last.log.len() as int, last.max_bytes);
        }
        let res = active.append_batch(batch.as_slice());
        match res {
            Ok((offset, count)) => {
                let ghost k = count as nat;
                proof {
                    assert(ps.len() == batch.len());
                }
                let ghost ts = choose|ts: u64|
                    active@ == appended_all(
                        last,
                        #[trigger] batch_records(ps, k, last.next_offset, ts),
                    );
                proof {
                    lemma_appended_all_next(last, ps, k, ts);
                }
                let next = active.next_offset();
                self.segments.push(active);
                proof {
                    assert(segment_views(self.segments@) =~= cur.update(cur.len() - 1, active@));
                    lemma_same_bases(cur, segment_views(self.segments@));
                }
                let rest = batch.split_off(count);
                proof {
                    assert(payloads_view(rest@) =~= ps.skip(k as int));
                }
                if rest.len() > 0 {
                    self.push_fresh(next);
                }
                let r = Ok((Some(offset), rest));
                proof {
                    assert(self@.max_segment_bytes == old(self)@.max_segment_bytes);
                    assert(self@.sync_level == old(self)@.sync_level);
                    assert(round_result(
                        batch_step(cur, ps, ts, self@.max_segment_bytes, self@.sync_level),
                        self@.segments,
                        r,
                    ));
                }
                r
            },
            Err(RukaError::SegmentFull { .. }) => {
                let next = active.next_offset();
                self.segments.push(active);
                proof {
                    assert(segment_views(self.segments@) =~= cur);
                }
                self.push_fresh(next);
                proof {
                    assert(batch_step(cur, ps, 0, self@.max_segment_bytes, self@.sync_level).0
                        == self@.segments);
                }
                Ok((None, batch))
            },
            Err(e) => {
                self.segments.push(active);
                proof {
                    assert(segment_views(self.segments@) =~= cur);
                    assert(batch_step(cur, ps, 0, self@.max_segment_bytes, self@.sync_level).0
                        == self@.segments);
                }
                Err(e)
            },
        }
    }

    /// Append a batch of payloads as records with no key and return the
    /// offset of the first.
    ///
    /// Each round writes, into the active segment, the payloads that fit;
    /// a new segment takes over when some are left or the active one is
    /// full. A payload whose record is longer than a segment's limit is
    /// `MessageTooLarge`, and the rounds written before it stay. An empty
    /// batch writes nothing and gives the next offset.
    #[verifier::spinoff_prover]
    pub fn append_batch(&mut self, payloads: Vec<Vec<u8>>) -> (r: Result<u64, RukaError>)
        requires
            old(self).wf(),
            old(self)@.segments.last().next_offset + payloads@.len() <= u64::MAX,
            forall|j: int|
                0 <= j < payloads@.len() ==> 28 + #[trigger] payloads@[j]@.len() <= usize::MAX,
        ensures
            final(self).wf(),
            final(self)@.topic == old(self)@.topic,
            final(self)@.id == old(self)@.id,
            final(self)@.max_segment_bytes == old(self)@.max_segment_bytes,
            final(self)@.sync_level == old(self)@.sync_level,
            exists|tss: Seq<u64>|
                match #[trigger] batch_run(
                    old(self)@.segments,
                    payloads_view(payloads@),
                    tss,
                    old(self)@.max_segment_bytes,
                    old(self)@.sync_level,
                ) {
                    BatchRun::Done(s) => final(self)@.segments == s && r == Ok::<u64, RukaError>(
                        old(self)@.segments.last().next_offset,
                    ),
                    BatchRun::Failed(s) => final(self)@.segments == s && r matches Err(
                        RukaError::MessageTooLarge,
                    ),
                    BatchRun::Unfinished => false,
                },
            batch_fits(old(self)@.segments, payloads_view(payloads@)) ==> batch_kept(
                old(self)@.segments,
                final(self)@.segments,
                payloads_view(payloads@),
                r is Ok,
            ),
    {
        let ghost pv = self@;
        let ghost ps0 = payloads_view(payloads@);
        let ghost max = pv.max_segment_bytes;
        let ghost sync = pv.sync_level;
        let ghost mut done: Seq<u64> = Seq::empty();
        let mut batch = payloads;
        let mut base_offset: Option<u64> = None;
        proof {
            assert forall|f: Seq<u64>|
                #[trigger] batch_run(pv.segments, ps0, done + f, max, sync) == batch_run(
                    self@.segments,
                    payloads_view(batch@),
                    f,
                    max,
                    sync,
                ) by {
                assert(done + f =~= f);
            }
        }
        while batch.len() > 0
            invariant
                pv == old(self)@,
                ps0 == payloads_view(payloads@),
                max == pv.max_segment_bytes,
                sync == pv.sync_level,
                self.wf(),
                self@.topic == pv.topic,
                self@.id == pv.id,
                self@.max_segment_bytes == max,
                self@.sync_level == sync,
                self@.segments.last().next_offset + batch@.len() <= u64::MAX,
                pv.segments.last().next_offset + ps0.len() <= u64::MAX,
                forall|j: int|
                    0 <= j < batch@.len() ==> 28 + #[trigger] batch@[j]@.len() <= usize::MAX,
                forall|f: Seq<u64>|
                    #[trigger] batch_run(pv.segments, ps0, done + f, max, sync) == batch_run(
                        self@.segments,
                        payloads_view(batch@),
                        f,
                        max,
                        sync,
                    ),
                base_offset is None ==> self@.segments.last().next_offset
                    == pv.segments.last().next_offset,
                base_offset matches Some(b) ==> b == pv.segments.last().next_offset,
            decreases 2 * batch@.len() + active_used(self@.segments),
        {
            let ghost cur = self@.segments;
            let ghost ps = payloads_view(batch@);
            match self.append_round(batch) {
                Ok((first, rest)) => {
                    let ghost ts = choose|ts: u64|
                        round_result(#[trigger] batch_step(cur, ps, ts, max, sync), self@.segments, Ok((first, rest)));
                    if base_offset.is_none() {
                        base_offset = first;
                    }
                    batch = rest;
                    proof {
                        lemma_run_step(pv.segments, ps0, done, ts, cur, ps, max, sync);
                        done = done.push(ts);
                    }
                },
                Err(e) => {
                    proof {
                        let ts = choose|ts: u64|
                            round_result(#[trigger] batch_step(cur, ps, ts, max, sync), self@.segments, Err(e));
                        assert(done + seq![ts] =~= done + (seq![ts] + Seq::<u64>::empty()));
                        assert(batch_run(pv.segments, ps0, done + seq![ts], max, sync) == batch_run(
                            cur,
                            ps,
                            seq![ts],
                            max,
                            sync,
                        ));
                        if batch_fits(pv.segments, ps0) {
                            assert(batch_kept(pv.segments, self@.segments, ps0, false)) by {
                                law_partition_batch(pv.segments, ps0, done + seq![ts], max, sync);
                            }
                        }
                    }
                    return Err(e);
                },
            }
        }
        proof {
            assert(done + Seq::<u64>::empty() =~= done);
            assert(batch_run(pv.segments, ps0, done + Seq::<u64>::empty(), max, sync) == batch_run(
                self@.segments,
                payloads_view(batch@),
                Seq::<u64>::empty(),
                max,
                sync,
            ));
            assert(payloads_view(batch@) =~= Seq::<Seq<u8>>::empty());
            if batch_fits(pv.segments, ps0) {
                assert(batch_kept(pv.segments, self@.segments, ps0, true)) by {
                    law_partition_batch(pv.segments, ps0, done, max, sync);
                }
            }
        }
        match base_offset {
            Some(b) => Ok(b),
            None => Ok(self.next_offset()),
        }
    }

    /// Read records from `offset` on, within about `max_bytes` of records,
    /// going on through the following segments.
    ///
    /// Each record counts 28 bytes plus its key and value; records are
    /// taken while the budget covers them. The first record is taken
    /// whatever its length. An offset before the first segment gives none.
    ///
    /// Gives `None` where the read panics: on segment bytes that do not hold
    /// a whole record, on a record too long to count in 32 bits, or on a
    /// record with the largest offset.
    #[verifier::spinoff_prover]
    pub fn try_read_batch(&self, offset: u64, max_bytes: u32) -> (r: Option<Vec<Record>>)
        requires
            self.wf(),
        ensures
            r is None <==> partition_read_batch_outcome(self@, offset, max_bytes).1,
            r matches Some(recs) ==> records_view(recs@) == partition_read_batch_outcome(
                self@,
                offset,
                max_bytes,
            ).0,
    {
        let ghost segs = self@.segments;
        let ghost top = partition_read_batch_outcome(self@, offset, max_bytes);
        let mut results: Vec<Record> = Vec::new();
        let mut idx = match self.find_segment(offset) {
            None => {
                proof {
                    assert(records_view(results@) =~= Seq::<RecordView>::empty());
                }
                return Some(results);
            },
            Some(k) => k,
        };
        proof {
            assert(records_view(results@) =~= Seq::<RecordView>::empty());
        }
        let mut at = offset;
        let mut budget = max_bytes;
        let n = self.segments.len();
        while idx < n && budget > 0
            invariant
                n == self.segments@.len() == segs.len(),
                segs == self@.segments,
                idx <= n,
                top == partition_read_batch_outcome(self@, offset, max_bytes),
                batch_from(segs, idx as int, at, budget, records_view(results@)) == top,
            ensures
                records_view(results@) == top.0,
                !top.1,
            decreases n - idx,
        {
            proof {
                assert(segs[idx as int] == self.segments@[idx as int]@);
            }
            let mut records = match self.segments[idx].try_read_batch(at, budget) {
                Some(v) => v,
                None => return None,
            };
            if records.len() == 0 {
                idx = idx + 1;
                if idx < n {
                    proof {
                        assert(segs[idx as int] == self.segments@[idx as int]@);
                    }
                    at = self.segments[idx].base_offset();
                }
                continue;
            }
            let ghost recs = records_view(records@);
            let ghost acc0 = records_view(results@);
            let ghost t0 = take_records(recs, 0, budget, acc0, at);
            proof {
                assert(acc0 + recs.take(0) =~= acc0);
            }
            let mut i: usize = 0;
            while i < records.len()
                invariant
                    n == self.segments@.len() == segs.len(),
                    segs == self@.segments,
                    idx < n,
                    recs == records_view(records@),
                    acc0 == records_view(results@),
                    i <= records@.len(),
                    t0 == take_records(recs, i as int, budget, acc0 + recs.take(i as int), at),
                    top == partition_read_batch_outcome(self@, offset, max_bytes),
                    after_take(segs, idx as int, t0) == top,
                decreases records@.len() - i,
            {
                let r = &records[i];
                proof {
                    assert(recs[i as int] == r@);
                }
                let kl: u32 = match &r.key {
                    Some(k) => #[verifier::truncate] (k.len() as u32),
                    None => 0,
                };
                let vl: u32 = match &r.value {
                    Some(v) => #[verifier::truncate] (v.len() as u32),
                    None => 0,
                };
                if 28 + kl as u64 + vl as u64 > u32::MAX as u64 {
                    return None;
                }
                let l = 28 + kl + vl;
                if budget >= l {
                    if r.offset == u64::MAX {
                        return None;
                    }
                    budget = budget - l;
                    at = r.offset + 1;
                    proof {
                        assert((acc0 + recs.take(i as int)).push(recs[i as int]) =~= acc0 + recs.take(
                            i + 1,
                        ));
                    }
                    i = i + 1;
                } else {
                    let keep = if results.len() == 0 && i == 0 {
                        1
                    } else {
                        i
                    };
                    records.truncate(keep);
                    results.append(&mut records);
                    proof {
                        assert(records_view(results@) =~= acc0 + recs.take(keep as int));
                        if keep == 1 && i == 0 {
                            assert(acc0 + recs.take(0) =~= acc0);
                            assert(acc0.push(recs[0]) =~= acc0 + recs.take(1));
                        }
                    }
                    return Some(results);
                }
            }
            results.append(&mut records);
            proof {
                assert(recs.take(i as int) =~= recs);
                assert(records_view(results@) =~= acc0 + recs);
            }
            idx = idx + 1;
            if idx < n {
                proof {
                    assert(segs[idx as int] == self.segments@[idx as int]@);
                }
                at = self.segments[idx].base_offset();
            }
        }
        Some(results)
    }

    /// Read records from `offset` on, within about `max_bytes` of records;
    /// see `try_read_batch`. This never fails.
    pub fn read_batch(&self, offset: u64, max_bytes: u32) -> (r: Result<Vec<Record>, RukaError>)
        requires
            self.wf(),
            !partition_read_batch_outcome(self@, offset, max_bytes).1,
        ensures
            r matches Ok(recs) && records_view(recs@) == partition_read_batch_outcome(
                self@,
                offset,
                max_bytes,
            ).0,
    {
        match self.try_read_batch(offset, max_bytes) {
            Some(recs) => Ok(recs),
            None => Ok(Vec::new()),
        }
    }

    /// Whether the partition is well formed: it has at least one segment, and
    /// it knows whether their bases are in order.
    pub closed spec fn wf(&self) -> bool {
        &&& self.segments@.len() > 0
        &&& self.sorted == bases_sorted(segment_views(self.segments@))
    }

    /// Assemble a partition from its loaded segments: sorted by base offset
    /// (keeping the given order among equal bases), or, if there are none, a
    /// single empty segment at offset 0.
    pub fn open_or_create(
        topic: String,
        id: u32,
        max_segment_bytes: u64,
        sync_level: SyncLevel,
        segments: Vec<Segment>,
    ) -> (r: Partition)
        ensures
            r.wf(),
            r@.topic == topic@,
            r@.id == id,
            r@.max_segment_bytes == max_segment_bytes,
            r@.sync_level == sync_level,
            segments@.len() > 0 ==> r@.segments == sort_by_base(segment_views(segments@)),
            segments@.len() == 0 ==> r@.segments == seq![
                fresh_segment(0, max_segment_bytes, sync_level),
            ],
            segments@.len() == 0 ==> partition_kept(r@.segments) && partition_records(r@.segments)
                == Seq::<RecordView>::empty(),
    {
        let ghost input = segment_views(segments@);
        let mut rest = segments;
        let mut sorted: Vec<Segment> = Vec::new();
        let n = rest.len();
        let mut i: usize = 0;
        while i < n
            invariant
                i <= n,
                rest@.len() == n - i,
                input.len() == n,
                forall|j: int| 0 <= j < n - i ==> #[trigger] rest@[j]@ == input[i + j],
                segment_views(sorted@) == sort_by_base(input.take(i as int)),
            decreases n - i,
        {
            let seg = rest.remove(0);
            proof {
                lemma_sort_by_base(input.take(i as int));
            }
            let ghost t = segment_views(sorted@);
            let mut k: usize = 0;
            while k < sorted.len() && sorted[k].base_offset() <= seg.base_offset()
                invariant
                    k <= sorted@.len(),
                    t == segment_views(sorted@),
                    bases_sorted(t),
                    insert_at(t, seg@, 0) == insert_at(t, seg@, k as int),
                decreases sorted@.len() - k,
            {
                k = k + 1;
            }
            proof {
                assert(insert_at(t, seg@, k as int) == k as int);
                assert(input.take(i + 1).drop_last() =~= input.take(i as int));
                assert(input.take(i + 1).last() == seg@);
            }
            sorted.insert(k, seg);
            proof {
                assert(segment_views(sorted@) =~= t.insert(k as int, seg@));
            }
            i = i + 1;
        }
        proof {
            assert(input.take(n as int) =~= input);
            lemma_sort_by_base(input);
        }
        if sorted.len() == 0 {
            sorted.push(Segment::create(0, max_segment_bytes, sync_level));
            proof {
                assert(segment_views(sorted@) =~= seq![fresh_segment(0, max_segment_bytes, sync_level)]);
                law_partition_created(0, max_segment_bytes, sync_level);
            }
        }
        Partition { topic, id, segments: sorted, sorted: true, max_segment_bytes, sync_level }
    }

    /// The offset the next appended record will get: the active segment's.
    pub fn next_offset(&self) -> (r: u64)
        requires
            self.wf(),
        ensures
            r == self@.segments.last().next_offset,
    {
        let n = self.segments.len();
        self.segments[n - 1].next_offset()
    }

    /// How many segments the partition has.
    pub fn segment_count(&self) -> (r: usize)
        ensures
            r == self@.segments.len(),
    {
        self.segments.len()
    }

    /// The segments, oldest first.
    pub fn segments(&self) -> (r: &[Segment])
        ensures
            segment_views(r@) == self@.segments,
    {
        self.segments.as_slice()
    }

    /// The segment that should hold `offset`, as a binary search over the
    /// base offsets when they are in order.
    fn find_segment(&self, offset: u64) -> (r: Option<usize>)
        requires
            self.wf(),
        ensures
            match segment_for(self@.segments, offset) {
                Some(k) => r == Some(k as usize),
                None => r is None,
            },
            r matches Some(k) ==> segment_for(self@.segments, offset) == Some(k as int) && k
                < self@.segments.len(),
    {
        let ghost s = self@.segments;
        proof {
            lemma_last_base_range(s, offset, s.len() as int);
        }
        let n = self.segments.len();
        if self.sorted {
            let mut lo: usize = 0;
            let mut hi: usize = n;
            while lo < hi
                invariant
                    0 <= lo <= hi <= n == s.len(),
                    s == segment_views(self.segments@),
                    bases_sorted(s),
                    forall|k: int| 0 <= k < lo ==> s[k].base_offset <= offset,
                    forall|k: int| hi <= k < n ==> s[k].base_offset > offset,
                decreases hi - lo,
            {
                let mid = lo + (hi - lo) / 2;
                proof {
                    assert(s[mid as int] == self.segments@[mid as int]@);
                }
                if self.segments[mid].base_offset() <= offset {
                    lo = mid + 1;
                } else {
                    hi = mid;
                }
            }
            proof {
                lemma_last_base_sorted(s, offset, n as int, lo as int);
            }
            if lo == 0 {
                None
            } else {
                Some(lo - 1)
            }
        } else {
            let mut k: usize = n;
            while k > 0
                invariant
                    k <= n == s.len(),
                    s == segment_views(self.segments@),
                    segment_for(s, offset) == last_base_at_most(s, offset, k as int),
                decreases k,
            {
                proof {
                    assert(s[k - 1] == self.segments@[k - 1]@);
                }
                if self.segments[k - 1].base_offset() <= offset {
                    return Some(k - 1);
                }
                k = k - 1;
            }
            None
        }
    }

    /// Read the record with exactly the given offset, from the last segment
    /// whose base offset is at most it; `None` where the read panics.
    pub fn try_read(&self, offset: u64) -> (r: Option<Result<Option<Record>, RukaError>>)
        requires
            self.wf(),
        ensures
            read_try_matches(r, partition_read_outcome(self@, offset)),
    {
        match self.find_segment(offset) {
            None => Some(Ok(None)),
            Some(k) => {
                proof {
                    assert(self@.segments[k as int] == self.segments@[k as int]@);
                }
                self.segments[k].try_read_at(offset)
            },
        }
    }

    /// Read the record with exactly the given offset; see `try_read`.
    pub fn read(&self, offset: u64) -> (r: Result<Option<Record>, RukaError>)
        requires
            self.wf(),
            !(partition_read_outcome(self@, offset) is Panics),
        ensures
            read_result_matches(r, partition_read_outcome(self@, offset)),
    {
        match self.try_read(offset) {
            Some(r) => r,
            None => Ok(None),
        }
    }
}

} // verus!
