//! What a partition's segments mean: runs of records, one per segment, each
//! starting where the one before ended; and the laws that tie appends and
//! reads together across segment rotation.
use vstd::prelude::*;
use crate::error::RukaError;
use crate::config::SyncLevel;
use crate::storage::index::Index;
use crate::storage::log_model::{
    batch_count, holds, increasing, law_append_all_holds, law_append_holds, law_create_holds,
    law_read_after_write, law_read_batch, law_read_missing, lemma_batch_more_len,
    law_reload, lemma_log_concat, lemma_record_bytes_len, log_of,
};
use crate::storage::partition::{
    after_take, bases_sorted, batch_from, batch_run, batch_step, budget_len, fresh_segment,
    insert_at, lemma_insert_at, lemma_last_base_range, lemma_last_base_sorted, next_base,
    partition_append_outcome, partition_appended, partition_read_batch_outcome,
    partition_read_outcome, segment_for,
    sort_by_base, take_records, BatchRun, PartitionView, Take,
};
use crate::storage::record::{encodable, opt_len, record_size, RecordView};
use crate::storage::segment::{
    append_outcome, appended_all, batch_plan, batch_records, lemma_batch_plan_bounds,
    load_panics, new_record, read_at_outcome, read_batch_outcome, read_entries, reloaded,
    BatchPlan, ReadOutcome, SegmentView,
};

verus! {

/// The segments hold the runs of records `chunks`, one run each; each
/// run numbers its records on from its segment's base offset, and each
/// segment starts at the offset where the one before ends.
pub open spec fn partition_holds(segs: Seq<SegmentView>, chunks: Seq<Seq<RecordView>>) -> bool {
    &&& segs.len() > 0
    &&& chunks.len() == segs.len()
    &&& forall|i: int| 0 <= i < segs.len() ==> holds(#[trigger] segs[i], chunks[i])
    &&& forall|i: int, k: int|
        0 <= i < segs.len() && 0 <= k < chunks[i].len() ==> #[trigger] chunks[i][k].offset
            == segs[i].base_offset + k
    &&& forall|i: int|
        0 < i < segs.len() ==> #[trigger] segs[i].base_offset == segs[i - 1].next_offset
}

/// No segment's log is longer than its size limit.
pub open spec fn within_limits(segs: Seq<SegmentView>) -> bool {
    forall|i: int| 0 <= i < segs.len() ==> #[trigger] segs[i].log.len() <= segs[i].max_bytes
}

/// A segment holding records starts at or before its next offset.
proof fn lemma_base_le_next(v: SegmentView, rs: Seq<RecordView>)
    requires
        holds(v, rs),
    ensures
        v.base_offset <= v.next_offset,
{
}

/// In a partition holding runs of records, later segments start no earlier,
/// and each starts at or after where every earlier one ends.
pub proof fn lemma_chain(segs: Seq<SegmentView>, chunks: Seq<Seq<RecordView>>, i: int, j: int)
    requires
        partition_holds(segs, chunks),
        0 <= i < j < segs.len(),
    ensures
        segs[i].base_offset <= segs[i].next_offset <= segs[j].base_offset,
    decreases j - i,
{
    lemma_base_le_next(segs[i], chunks[i]);
    if j > i + 1 {
        lemma_chain(segs, chunks, i + 1, j);
        lemma_base_le_next(segs[i + 1], chunks[i + 1]);
    }
}

/// In a partition holding runs of records, the segment that should hold an
/// offset within segment `i`'s range is segment `i`.
pub proof fn lemma_segment_for_range(
    segs: Seq<SegmentView>,
    chunks: Seq<Seq<RecordView>>,
    i: int,
    o: u64,
)
    requires
        partition_holds(segs, chunks),
        0 <= i < segs.len(),
        segs[i].base_offset <= o < segs[i].next_offset,
    ensures
        segment_for(segs, o) == Some(i),
{
    assert forall|k: int| 0 <= k < i + 1 implies segs[k].base_offset <= o by {
        if k < i {
            lemma_chain(segs, chunks, k, i);
            lemma_base_le_next(segs[k], chunks[k]);
        }
    }
    assert forall|k: int| i + 1 <= k < segs.len() implies segs[k].base_offset > o by {
        lemma_chain(segs, chunks, i, k);
    }
    lemma_last_base_sorted(segs, o, segs.len() as int, i + 1);
}

/// A new partition's single empty segment holds one empty run.
pub proof fn law_partition_create_holds(base: u64, max: u64, sync_level: SyncLevel)
    ensures
        partition_holds(
            seq![fresh_segment(base, max, sync_level)],
            seq![Seq::<RecordView>::empty()],
        ),
        within_limits(seq![fresh_segment(base, max, sync_level)]),
{
    law_create_holds(fresh_segment(base, max, sync_level));
}

/// In a partition holding runs of records, reading the offset of any
/// record, in whichever segment, finds that segment and gives the record
/// back.
pub proof fn law_partition_read_after_write(
    segs: Seq<SegmentView>,
    chunks: Seq<Seq<RecordView>>,
    i: int,
    j: int,
)
    requires
        partition_holds(segs, chunks),
        0 <= i < segs.len(),
        0 <= j < chunks[i].len(),
    ensures
        segment_for(segs, chunks[i][j].offset) == Some(i),
        read_at_outcome(segs[i], chunks[i][j].offset) == ReadOutcome::Found(chunks[i][j]),
{
    let rs = chunks[i];
    assert(holds(segs[i], rs));
    let o = rs[j].offset;
    assert(segs[i].base_offset <= o < segs[i].next_offset) by {
        if j > 0 {
            assert(rs[0].offset < o);
        }
        if j < rs.len() - 1 {
            assert(o < rs.last().offset);
        }
    }
    lemma_segment_for_range(segs, chunks, i, o);
    law_read_after_write(segs[i], rs, j);
}

/// In a partition holding runs of records, an offset at or past the next
/// one is found in no segment, or read there as missing.
pub proof fn law_partition_read_past_end(
    segs: Seq<SegmentView>,
    chunks: Seq<Seq<RecordView>>,
    o: u64,
)
    requires
        partition_holds(segs, chunks),
        o >= segs.last().next_offset,
    ensures
        match segment_for(segs, o) {
            None => true,
            Some(k) => read_at_outcome(segs[k], o) == ReadOutcome::Missing,
        },
{
    lemma_last_base_range(segs, o, segs.len() as int);
    match segment_for(segs, o) {
        None => {},
        Some(k) => {
            let n = segs.len() - 1;
            if k < n {
                lemma_chain(segs, chunks, k, n);
                lemma_base_le_next(segs[n], chunks[n]);
            }
            let rs = chunks[k];
            assert(holds(segs[k], rs));
            assert forall|m: int| 0 <= m < rs.len() implies #[trigger] rs[m].offset != o by {
                if m < rs.len() - 1 {
                    assert(rs[m].offset < rs.last().offset);
                }
            }
            law_read_missing(segs[k], rs, o);
        },
    }
}

/// The runs of records after appending a record with timestamp `ts`: the
/// record joins the last run, or, when the active segment was full, starts
/// a new run in the new segment.
pub open spec fn chunks_after_append(
    pv: PartitionView,
    chunks: Seq<Seq<RecordView>>,
    key: Option<Seq<u8>>,
    value: Option<Seq<u8>>,
    ts: u64,
) -> Seq<Seq<RecordView>> {
    let n = pv.segments.len() as int;
    let last = pv.segments.last();
    match append_outcome(last, key, value) {
        Ok(_) => chunks.update(n - 1, chunks[n - 1].push(new_record(last, key, value, ts))),
        Err(RukaError::SegmentFull { .. }) => {
            let f = fresh_segment(last.next_offset, pv.max_segment_bytes, pv.sync_level);
            match append_outcome(f, key, value) {
                Ok(_) => chunks.push(seq![new_record(f, key, value, ts)]),
                Err(_) => chunks.push(Seq::empty()),
            }
        },
        Err(_) => chunks,
    }
}

/// Appending a record keeps a partition holding runs of records: the
/// record is added at the offset the append returns, in the active segment
/// or in the new one that rotation starts.
pub proof fn law_partition_append_holds(
    pv: PartitionView,
    chunks: Seq<Seq<RecordView>>,
    key: Option<Seq<u8>>,
    value: Option<Seq<u8>>,
    ts: u64,
)
    requires
        partition_holds(pv.segments, chunks),
        partition_append_outcome(pv, key, value) is Ok ==> pv.segments.last().next_offset
            < u64::MAX,
        28 + opt_len(key) + opt_len(value) <= u32::MAX,
    ensures
        partition_holds(
            partition_appended(pv, key, value, ts),
            chunks_after_append(pv, chunks, key, value, ts),
        ),
        partition_append_outcome(pv, key, value) matches Ok(o) ==> o
            == pv.segments.last().next_offset,
{
    let segs = pv.segments;
    let n = segs.len() as int;
    let last = segs.last();
    let segs2 = partition_appended(pv, key, value, ts);
    let chunks2 = chunks_after_append(pv, chunks, key, value, ts);
    assert(holds(segs[n - 1], chunks[n - 1]));
    match append_outcome(last, key, value) {
        Ok(_) => {
            let r = new_record(last, key, value, ts);
            assert(encodable(r));
            law_append_holds(last, chunks[n - 1], r);
            assert forall|i: int| 0 <= i < segs2.len() implies holds(
                #[trigger] segs2[i],
                chunks2[i],
            ) by {
                if i < n - 1 {
                    assert(holds(segs[i], chunks[i]));
                }
            }
            assert forall|i: int| 0 < i < segs2.len() implies #[trigger] segs2[i].base_offset
                == segs2[i - 1].next_offset by {
                assert(segs[i].base_offset == segs[i - 1].next_offset);
            }
        },
        Err(RukaError::SegmentFull { .. }) => {
            let f = fresh_segment(last.next_offset, pv.max_segment_bytes, pv.sync_level);
            law_create_holds(f);
            if append_outcome(f, key, value) is Ok {
                let r = new_record(f, key, value, ts);
                assert(encodable(r));
                law_append_holds(f, Seq::empty(), r);
                assert(Seq::<RecordView>::empty().push(r) =~= seq![r]);
            }
            assert forall|i: int| 0 <= i < segs2.len() implies holds(
                #[trigger] segs2[i],
                chunks2[i],
            ) by {
                if i < n {
                    assert(holds(segs[i], chunks[i]));
                }
            }
            assert forall|i: int| 0 < i < segs2.len() implies #[trigger] segs2[i].base_offset
                == segs2[i - 1].next_offset by {
                if i < n {
                    assert(segs[i].base_offset == segs[i - 1].next_offset);
                }
            }
        },
        Err(_) => {},
    }
}

/// Appending a record keeps every segment within its size limit.
pub proof fn law_partition_append_within_limits(
    pv: PartitionView,
    key: Option<Seq<u8>>,
    value: Option<Seq<u8>>,
    ts: u64,
)
    requires
        within_limits(pv.segments),
        pv.segments.len() > 0,
    ensures
        within_limits(partition_appended(pv, key, value, ts)),
{
    let segs = pv.segments;
    let n = segs.len() as int;
    let segs2 = partition_appended(pv, key, value, ts);
    assert forall|i: int| 0 <= i < segs2.len() implies #[trigger] segs2[i].log.len()
        <= segs2[i].max_bytes by {
        if i < n {
            assert(segs[i].log.len() <= segs[i].max_bytes);
        }
        lemma_record_bytes_len(
            new_record(segs[n - 1], key, value, ts),
        );
        lemma_record_bytes_len(
            new_record(
                fresh_segment(segs[n - 1].next_offset, pv.max_segment_bytes, pv.sync_level),
                key,
                value,
                ts,
            ),
        );
    }
}

/// The log bytes of the records for the first `k` payloads of a batch.
pub open spec fn batch_bytes(ps: Seq<Seq<u8>>, k: int) -> int
    decreases k,
{
    if k <= 0 {
        0
    } else {
        batch_bytes(ps, k - 1) + 28 + ps[k - 1].len()
    }
}

/// A plan from payload `i` with the log `pos` bytes long that takes the
/// payloads up to `k` keeps the log within the limit.
proof fn lemma_plan_bytes(ps: Seq<Seq<u8>>, i: nat, pos: int, max: u64)
    requires
        i <= ps.len(),
        i == 0 ==> ps.len() > 0,
        i > 0 ==> pos <= max,
    ensures
        batch_plan(ps, i, pos, max) matches BatchPlan::Take(k) ==> pos + batch_bytes(ps, k as int)
            - batch_bytes(ps, i as int) <= max,
    decreases ps.len() - i,
{
    if i < ps.len() {
        let rl = 28 + ps[i as int].len();
        if rl <= max && pos + rl <= max {
            lemma_plan_bytes(ps, i + 1, pos + rl, max);
        }
    }
}

/// The log of a batch's records is as long as their bytes add up to.
proof fn lemma_batch_log_len(ps: Seq<Seq<u8>>, k: nat, first: u64, ts: u64)
    requires
        k <= ps.len(),
    ensures
        log_of(batch_records(ps, k, first, ts)).len() == batch_bytes(ps, k as int),
    decreases k,
{
    reveal(log_of);
    if k > 0 {
        let recs = batch_records(ps, k, first, ts);
        assert(recs.drop_last() =~= batch_records(ps, (k - 1) as nat, first, ts));
        lemma_batch_log_len(ps, (k - 1) as nat, first, ts);
        lemma_record_bytes_len(recs.last());
    }
}

/// Record `r` has offset `o`, no key, and the value `v`.
pub open spec fn carries(r: RecordView, o: u64, v: Seq<u8>) -> bool {
    r.offset == o && r.key is None && r.value == Some(v)
}

/// Some run holds a record with offset `o`, no key, and the value `v`.
pub open spec fn stored(chunks: Seq<Seq<RecordView>>, o: u64, v: Seq<u8>) -> bool {
    exists|i: int, j: int|
        0 <= i < chunks.len() && 0 <= j < chunks[i].len() && #[trigger] carries(chunks[i][j], o, v)
}

/// Every record stored in the first runs is stored in the second.
pub open spec fn keeps_stored(a: Seq<Seq<RecordView>>, b: Seq<Seq<RecordView>>) -> bool {
    forall|o: u64, v: Seq<u8>| #[trigger] stored(a, o, v) ==> stored(b, o, v)
}

/// The runs of records after one round of a batch append.
pub open spec fn chunks_after_step(
    segs: Seq<SegmentView>,
    chunks: Seq<Seq<RecordView>>,
    ps: Seq<Seq<u8>>,
    ts: u64,
) -> Seq<Seq<RecordView>> {
    let n = segs.len() as int;
    let last = segs.last();
    match batch_plan(ps, 0, last.log.len() as int, last.max_bytes) {
        BatchPlan::TooLarge => chunks,
        BatchPlan::Full => chunks.push(Seq::empty()),
        BatchPlan::Take(k) => {
            let c2 = chunks.update(
                n - 1,
                chunks[n - 1] + batch_records(ps, k, last.next_offset, ts),
            );
            if ps.skip(k as int).len() == 0 {
                c2
            } else {
                c2.push(Seq::empty())
            }
        },
    }
}

/// One round of a batch append keeps a partition holding runs of records;
/// the payloads it takes are stored at the next offsets, in order, and the
/// next offset moves past them.
#[verifier::spinoff_prover]
#[verifier::rlimit(50)]
pub proof fn law_batch_step_holds(
    segs: Seq<SegmentView>,
    chunks: Seq<Seq<RecordView>>,
    ps: Seq<Seq<u8>>,
    ts: u64,
    max: u64,
    sync_level: SyncLevel,
)
    requires
        partition_holds(segs, chunks),
        ps.len() > 0,
        forall|j: int| 0 <= j < ps.len() ==> 28 + #[trigger] ps[j].len() <= u32::MAX,
        segs.last().next_offset + ps.len() <= u64::MAX,
        !batch_step(segs, ps, ts, max, sync_level).2,
    ensures
        ({
            let step = batch_step(segs, ps, ts, max, sync_level);
            let c2 = chunks_after_step(segs, chunks, ps, ts);
            let taken = ps.len() - step.1.len();
            &&& partition_holds(step.0, c2)
            &&& keeps_stored(chunks, c2)
            &&& 0 <= taken <= ps.len()
            &&& step.1 == ps.skip(taken)
            &&& step.0.last().next_offset == segs.last().next_offset + taken
            &&& forall|j: int|
                0 <= j < taken ==> stored(c2, (segs.last().next_offset + j) as u64, #[trigger] ps[j])
        }),
{
    let n = segs.len() as int;
    let last = segs.last();
    let step = batch_step(segs, ps, ts, max, sync_level);
    let c2 = chunks_after_step(segs, chunks, ps, ts);
    lemma_batch_plan_bounds(ps, 0, last.log.len() as int, last.max_bytes);
    assert(holds(segs[n - 1], chunks[n - 1]));
    match batch_plan(ps, 0, last.log.len() as int, last.max_bytes) {
        BatchPlan::TooLarge => {},
        BatchPlan::Full => {
            let f = fresh_segment(last.next_offset, max, sync_level);
            law_create_holds(f);
            assert(ps.skip(0) =~= ps);
            assert forall|i: int| 0 <= i < step.0.len() implies holds(#[trigger] step.0[i], c2[i]) by {
                if i < n {
                    assert(holds(segs[i], chunks[i]));
                }
            }
            assert forall|i: int| 0 < i < step.0.len() implies #[trigger] step.0[i].base_offset
                == step.0[i - 1].next_offset by {
                if i < n {
                    assert(segs[i].base_offset == segs[i - 1].next_offset);
                }
            }
            assert forall|o: u64, v: Seq<u8>| #[trigger] stored(chunks, o, v) implies stored(
                c2,
                o,
                v,
            ) by {
                let (i, j) = choose|i: int, j: int|
                    0 <= i < chunks.len() && 0 <= j < chunks[i].len() && #[trigger] carries(
                        chunks[i][j],
                        o,
                        v,
                    );
                assert(c2[i][j] == chunks[i][j]);
            }
        },
        BatchPlan::Take(k) => {
            let recs = batch_records(ps, k, last.next_offset, ts);
            lemma_plan_bytes(ps, 0, last.log.len() as int, last.max_bytes);
            lemma_batch_log_len(ps, k, last.next_offset, ts);
            assert forall|j: int| 0 <= j < recs.len() implies encodable(#[trigger] recs[j]) by {
                assert(28 + ps[j].len() <= u32::MAX);
            }
            law_append_all_holds(last, chunks[n - 1], recs);
            let filled = appended_all(last, recs);
            let rest = ps.skip(k as int);
            assert(rest.len() == ps.len() - k);
            let segs2 = segs.update(n - 1, filled);
            assert forall|i: int| 0 <= i < segs2.len() implies holds(#[trigger] segs2[i], c2[i]) by {
                if i < n - 1 {
                    assert(holds(segs[i], chunks[i]));
                }
            }
            if rest.len() > 0 {
                law_create_holds(fresh_segment(filled.next_offset, max, sync_level));
            }
            assert forall|i: int| 0 <= i < step.0.len() implies holds(#[trigger] step.0[i], c2[i]) by {
                if i < n {
                    assert(holds(segs2[i], c2[i]));
                }
            }
            assert forall|i: int| 0 < i < step.0.len() implies #[trigger] step.0[i].base_offset
                == step.0[i - 1].next_offset by {
                if i < n {
                    assert(segs[i].base_offset == segs[i - 1].next_offset);
                }
            }
            assert forall|o: u64, v: Seq<u8>| #[trigger] stored(chunks, o, v) implies stored(
                c2,
                o,
                v,
            ) by {
                let (i, j) = choose|i: int, j: int|
                    0 <= i < chunks.len() && 0 <= j < chunks[i].len() && #[trigger] carries(
                        chunks[i][j],
                        o,
                        v,
                    );
                assert(c2[i][j] == chunks[i][j]);
            }
            let m = chunks[n - 1].len();
            assert forall|j: int| 0 <= j < k implies stored(
                c2,
                (last.next_offset + j) as u64,
                #[trigger] ps[j],
            ) by {
                assert(c2[n - 1][m + j] == recs[j]);
                assert(carries(c2[n - 1][m + j], (last.next_offset + j) as u64, ps[j]));
            }
        },
    }
}

/// What a batch append that ended in `run` keeps: a partition holding runs
/// of records with every record held before, and, when it finished, every
/// payload stored at the next offset plus its place in the batch.
pub open spec fn run_keeps(
    segs: Seq<SegmentView>,
    chunks: Seq<Seq<RecordView>>,
    ps: Seq<Seq<u8>>,
    run: BatchRun,
) -> bool {
    match run {
        BatchRun::Done(s) => exists|c2: Seq<Seq<RecordView>>|
            {
                &&& #[trigger] partition_holds(s, c2)
                &&& keeps_stored(chunks, c2)
                &&& forall|j: int|
                    0 <= j < ps.len() ==> stored(
                        c2,
                        (segs.last().next_offset + j) as u64,
                        #[trigger] ps[j],
                    )
            },
        BatchRun::Failed(s) => exists|c2: Seq<Seq<RecordView>>|
            {
                &&& #[trigger] partition_holds(s, c2)
                &&& keeps_stored(chunks, c2)
            },
        BatchRun::Unfinished => true,
    }
}

/// A batch append that left the segments as they were keeps what they held.
proof fn lemma_run_keeps_unchanged(
    segs: Seq<SegmentView>,
    chunks: Seq<Seq<RecordView>>,
    ps: Seq<Seq<u8>>,
    run: BatchRun,
)
    requires
        partition_holds(segs, chunks),
        run == BatchRun::Failed(segs) || (run == BatchRun::Done(segs) && ps.len() == 0),
    ensures
        run_keeps(segs, chunks, ps, run),
{
    assert(keeps_stored(chunks, chunks));
    match run {
        BatchRun::Failed(s) => {
            assert(partition_holds(s, chunks));
        },
        BatchRun::Done(s) => {
            assert(partition_holds(s, chunks));
        },
        _ => {},
    }
}

/// What a batch append keeps after its first round, chained with what the
/// rounds after it keep.
proof fn lemma_run_chain(
    next0: u64,
    chunks: Seq<Seq<RecordView>>,
    c1: Seq<Seq<RecordView>>,
    ps: Seq<Seq<u8>>,
    taken: int,
    rest: Seq<Seq<u8>>,
    next1: u64,
    run: BatchRun,
)
    requires
        0 <= taken <= ps.len(),
        rest == ps.skip(taken),
        next1 == next0 + taken,
        keeps_stored(chunks, c1),
        forall|j: int| 0 <= j < taken ==> stored(c1, (next0 + j) as u64, #[trigger] ps[j]),
        match run {
            BatchRun::Done(s) => exists|c2: Seq<Seq<RecordView>>|
                {
                    &&& #[trigger] partition_holds(s, c2)
                    &&& keeps_stored(c1, c2)
                    &&& forall|j: int|
                        0 <= j < rest.len() ==> stored(c2, (next1 + j) as u64, #[trigger] rest[j])
                },
            BatchRun::Failed(s) => exists|c2: Seq<Seq<RecordView>>|
                {
                    &&& #[trigger] partition_holds(s, c2)
                    &&& keeps_stored(c1, c2)
                },
            BatchRun::Unfinished => true,
        },
    ensures
        match run {
            BatchRun::Done(s) => exists|c2: Seq<Seq<RecordView>>|
                {
                    &&& #[trigger] partition_holds(s, c2)
                    &&& keeps_stored(chunks, c2)
                    &&& forall|j: int|
                        0 <= j < ps.len() ==> stored(c2, (next0 + j) as u64, #[trigger] ps[j])
                },
            BatchRun::Failed(s) => exists|c2: Seq<Seq<RecordView>>|
                {
                    &&& #[trigger] partition_holds(s, c2)
                    &&& keeps_stored(chunks, c2)
                },
            BatchRun::Unfinished => true,
        },
{
    match run {
        BatchRun::Done(s) => {
            let c2 = choose|c2: Seq<Seq<RecordView>>|
                {
                    &&& #[trigger] partition_holds(s, c2)
                    &&& keeps_stored(c1, c2)
                    &&& forall|j: int|
                        0 <= j < rest.len() ==> stored(c2, (next1 + j) as u64, #[trigger] rest[j])
                };
            assert forall|j: int| 0 <= j < ps.len() implies stored(
                c2,
                (next0 + j) as u64,
                #[trigger] ps[j],
            ) by {
                if j < taken {
                    assert(stored(c1, (next0 + j) as u64, ps[j]));
                } else {
                    assert(rest[j - taken] == ps[j]);
                    assert(stored(c2, (next1 + (j - taken)) as u64, rest[j - taken]));
                }
            }
            assert(keeps_stored(chunks, c2));
        },
        BatchRun::Failed(s) => {
            let c2 = choose|c2: Seq<Seq<RecordView>>|
                {
                    &&& #[trigger] partition_holds(s, c2)
                    &&& keeps_stored(c1, c2)
                };
            assert(keeps_stored(chunks, c2));
        },
        BatchRun::Unfinished => {},
    }
}

/// A whole batch append keeps a partition holding runs of records and every
/// record it held; when it finishes, every payload is stored at the next
/// offset plus its place in the batch.
#[verifier::spinoff_prover]
pub proof fn law_batch_run_holds(
    segs: Seq<SegmentView>,
    chunks: Seq<Seq<RecordView>>,
    ps: Seq<Seq<u8>>,
    tss: Seq<u64>,
    max: u64,
    sync_level: SyncLevel,
)
    requires
        partition_holds(segs, chunks),
        forall|j: int| 0 <= j < ps.len() ==> 28 + #[trigger] ps[j].len() <= u32::MAX,
        segs.last().next_offset + ps.len() <= u64::MAX,
    ensures
        run_keeps(segs, chunks, ps, batch_run(segs, ps, tss, max, sync_level)),
    decreases tss.len(),
{
    if ps.len() == 0 {
        lemma_run_keeps_unchanged(segs, chunks, ps, batch_run(segs, ps, tss, max, sync_level));
    } else if tss.len() > 0 {
        let step = batch_step(segs, ps, tss[0], max, sync_level);
        if step.2 {
            lemma_run_keeps_unchanged(segs, chunks, ps, batch_run(segs, ps, tss, max, sync_level));
        } else {
            assert(batch_run(segs, ps, tss, max, sync_level) == batch_run(
                step.0,
                step.1,
                tss.drop_first(),
                max,
                sync_level,
            ));
            law_batch_step_holds(segs, chunks, ps, tss[0], max, sync_level);
            let c1 = chunks_after_step(segs, chunks, ps, tss[0]);
            let taken = ps.len() - step.1.len();
            let rest = step.1;
            assert forall|j: int| 0 <= j < rest.len() implies 28 + #[trigger] rest[j].len()
                <= u32::MAX by {
                assert(rest[j] == ps[taken + j]);
            }
            law_batch_run_holds(step.0, c1, rest, tss.drop_first(), max, sync_level);
            lemma_run_chain(
                segs.last().next_offset,
                chunks,
                c1,
                ps,
                taken,
                rest,
                step.0.last().next_offset,
                batch_run(step.0, rest, tss.drop_first(), max, sync_level),
            );
        }
    }
}

/// In a partition holding runs of records, a stored record is found in the
/// segment that should hold its offset, and reading it there gives it back.
pub proof fn law_partition_read_stored(
    segs: Seq<SegmentView>,
    chunks: Seq<Seq<RecordView>>,
    o: u64,
    v: Seq<u8>,
)
    requires
        partition_holds(segs, chunks),
        stored(chunks, o, v),
    ensures
        match segment_for(segs, o) {
            Some(i) => read_at_outcome(segs[i], o) matches ReadOutcome::Found(r) && carries(r, o, v),
            None => false,
        },
{
    let (i, j) = choose|i: int, j: int|
        0 <= i < chunks.len() && 0 <= j < chunks[i].len() && #[trigger] carries(chunks[i][j], o, v);
    law_partition_read_after_write(segs, chunks, i, j);
}

/// Sorting segments whose bases are already in order keeps them as they are.
pub proof fn law_sort_keeps_order(s: Seq<SegmentView>)
    requires
        bases_sorted(s),
    ensures
        sort_by_base(s) == s,
    decreases s.len(),
{
    if s.len() > 0 {
        let d = s.drop_last();
        assert(bases_sorted(d));
        law_sort_keeps_order(d);
        lemma_insert_at(d, s.last(), 0);
        assert(insert_at(d, s.last(), 0) == d.len());
        assert(d.insert(d.len() as int, s.last()) =~= s);
    }
}

/// The segments of a partition holding runs of records are in order of
/// their bases, so assembling a partition from them again, in that order,
/// gives them back unchanged.
pub proof fn law_partition_reassemble(segs: Seq<SegmentView>, chunks: Seq<Seq<RecordView>>)
    requires
        partition_holds(segs, chunks),
    ensures
        bases_sorted(segs),
        sort_by_base(segs) == segs,
{
    assert forall|i: int, j: int| 0 <= i < j < segs.len() implies segs[i].base_offset
        <= segs[j].base_offset by {
        lemma_chain(segs, chunks, i, j);
    }
    law_sort_keeps_order(segs);
}

/// The records gathered where taking a segment's records ends.
pub open spec fn take_gathered(t: Take) -> Seq<RecordView> {
    match t {
        Take::Stop(a, _) => a,
        Take::Continue(a, _, _) => a,
    }
}

/// `b` starts with `a`.
pub open spec fn extends(b: Seq<RecordView>, a: Seq<RecordView>) -> bool {
    b.len() >= a.len() && b.take(a.len() as int) == a
}

/// Taking records keeps what was gathered before, at the front.
proof fn lemma_take_extends(recs: Seq<RecordView>, k: int, b: u32, acc: Seq<RecordView>, o: u64)
    ensures
        extends(take_gathered(take_records(recs, k, b, acc, o)), acc),
    decreases recs.len() - k,
{
    assert(acc.take(acc.len() as int) =~= acc);
    if 0 <= k < recs.len() {
        let r = recs[k];
        let l = budget_len(r);
        if l <= u32::MAX && b >= l && r.offset != u64::MAX {
            let acc2 = acc.push(r);
            lemma_take_extends(recs, k + 1, (b - l) as u32, acc2, (r.offset + 1) as u64);
            let g = take_gathered(take_records(recs, k + 1, (b - l) as u32, acc2, (r.offset + 1) as u64));
            assert(g.take(acc.len() as int) =~= g.take(acc2.len() as int).take(acc.len() as int));
            assert(acc2.take(acc.len() as int) =~= acc);
        } else if l <= u32::MAX && b < l && acc.len() == 0 {
            assert(acc.push(r).take(0) =~= acc);
        }
    }
}

/// A record that fits in 32 bits counts its whole length against a fetch
/// budget.
proof fn lemma_budget_len(r: RecordView)
    requires
        encodable(r),
    ensures
        budget_len(r) == record_size(r),
{
    assert(opt_len(r.key) <= u32::MAX);
    assert(opt_len(r.value) <= u32::MAX);
    assert((opt_len(r.key) as u32) == opt_len(r.key));
    assert((opt_len(r.value) as u32) == opt_len(r.value));
}

/// Taking records that fit in 32 bits and have a next offset never panics.
proof fn lemma_take_safe(recs: Seq<RecordView>, k: int, b: u32, acc: Seq<RecordView>, o: u64)
    requires
        forall|x: int| 0 <= x < recs.len() ==> encodable(#[trigger] recs[x]),
        forall|x: int| 0 <= x < recs.len() ==> #[trigger] recs[x].offset < u64::MAX,
    ensures
        !(take_records(recs, k, b, acc, o) matches Take::Stop(_, true)),
    decreases recs.len() - k,
{
    if 0 <= k < recs.len() {
        let r = recs[k];
        lemma_budget_len(r);
        assert(encodable(r) && r.offset < u64::MAX);
        if b >= budget_len(r) {
            lemma_take_safe(recs, k + 1, (b - budget_len(r)) as u32, acc.push(r), (r.offset + 1) as u64);
        }
    }
}

/// The records a segment holding `rs` gives a fetch from record `j` on:
/// some of them, in order, that fit in 32 bits and have a next offset.
proof fn lemma_segment_fetch(v: SegmentView, rs: Seq<RecordView>, j: int, m: u32)
    requires
        holds(v, rs),
        0 <= j < rs.len(),
    ensures
        !read_batch_outcome(v, rs[j].offset, m).1,
        read_batch_outcome(v, rs[j].offset, m).0.len() >= 1,
        read_batch_outcome(v, rs[j].offset, m).0[0] == rs[j],
        forall|x: int|
            0 <= x < read_batch_outcome(v, rs[j].offset, m).0.len() ==> encodable(
                #[trigger] read_batch_outcome(v, rs[j].offset, m).0[x],
            ) && read_batch_outcome(v, rs[j].offset, m).0[x].offset < u64::MAX,
{
    law_read_batch(v, rs, j, m);
    let tail = rs.skip(j);
    lemma_batch_more_len(tail.drop_first(), m as int, record_size(tail[0]) as int);
    let cnt = batch_count(tail, m as int);
    let got = rs.subrange(j, j + cnt);
    assert forall|x: int| 0 <= x < got.len() implies encodable(#[trigger] got[x]) && got[x].offset
        < u64::MAX by {
        assert(got[x] == rs[j + x]);
        if j + x < rs.len() - 1 {
            assert(rs[j + x].offset < rs.last().offset);
        }
    }
}

/// Going on with the segments from `idx`, each from its base offset, a
/// fetch over a partition holding runs of records never panics.
proof fn lemma_tail_safe(
    segs: Seq<SegmentView>,
    chunks: Seq<Seq<RecordView>>,
    idx: int,
    o: u64,
    b: u32,
    acc: Seq<RecordView>,
)
    requires
        partition_holds(segs, chunks),
        0 <= idx <= segs.len(),
    ensures
        !batch_from(segs, idx, next_base(segs, idx, o), b, acc).1,
    decreases segs.len() - idx,
{
    if idx < segs.len() && b != 0 {
        let v = segs[idx];
        let rs = chunks[idx];
        assert(holds(v, rs));
        let base = v.base_offset;
        assert(next_base(segs, idx, o) == base);
        if rs.len() == 0 {
            assert(v.next_offset == base);
            assert(read_batch_outcome(v, base, b) == (Seq::<RecordView>::empty(), false));
            lemma_tail_safe(segs, chunks, idx + 1, base, b, acc);
            assert(batch_from(segs, idx, base, b, acc) == batch_from(
                segs,
                idx + 1,
                next_base(segs, idx + 1, base),
                b,
                acc,
            ));
        } else {
            assert(rs[0].offset == base + 0);
            lemma_segment_fetch(v, rs, 0, b);
            let got = read_batch_outcome(v, base, b).0;
            lemma_take_safe(got, 0, b, acc, base);
            let t = take_records(got, 0, b, acc, base);
            assert(batch_from(segs, idx, base, b, acc) == after_take(segs, idx, t));
            match t {
                Take::Stop(_, _) => {},
                Take::Continue(a, b2, o2) => {
                    lemma_tail_safe(segs, chunks, idx + 1, o2, b2, a);
                },
            }
        }
    }
}

/// In a partition holding runs of records, a fetch from the offset of any
/// record with a budget above zero does not panic and gives that record
/// first, then only records the partition holds, with increasing offsets.
#[verifier::spinoff_prover]
pub proof fn law_partition_fetch(
    pv: PartitionView,
    chunks: Seq<Seq<RecordView>>,
    i: int,
    j: int,
    m: u32,
)
    requires
        partition_holds(pv.segments, chunks),
        0 <= i < pv.segments.len(),
        0 <= j < chunks[i].len(),
        m > 0,
    ensures
        ({
            let out = partition_read_batch_outcome(pv, chunks[i][j].offset, m);
            &&& !out.1
            &&& out.0.len() >= 1
            &&& out.0[0] == chunks[i][j]
            &&& increasing(out.0)
            &&& from_segments(out.0, chunks, i)
        }),
{
    let segs = pv.segments;
    let rs = chunks[i];
    let o = rs[j].offset;
    law_partition_read_after_write(segs, chunks, i, j);
    assert(holds(segs[i], rs));
    lemma_segment_fetch(segs[i], rs, j, m);
    law_read_batch(segs[i], rs, j, m);
    let got = read_batch_outcome(segs[i], o, m).0;
    let tail = rs.skip(j);
    lemma_batch_more_len(tail.drop_first(), m as int, record_size(tail[0]) as int);
    let cnt = batch_count(tail, m as int);
    assert(got == rs.subrange(j, j + cnt));
    let empty = Seq::<RecordView>::empty();
    lemma_take_safe(got, 0, m, empty, o);
    let t = lemma_take_content(got, 0, m, empty, o);
    let taken = got.subrange(0, t);
    assert(taken =~= rs.subrange(j, j + t));
    lemma_chunk_range(segs, chunks, i, j, t);
    let r = rs[j];
    lemma_budget_len(r);
    assert(t >= 1) by {
        if m >= budget_len(r) {
            lemma_take_extends(got, 1, (m - budget_len(r)) as u32, empty.push(r), (r.offset + 1) as u64);
        }
    }
    assert(taken[0] == r);
    let tk = take_records(got, 0, m, empty, o);
    assert(batch_from(segs, i, o, m, empty) == after_take(segs, i, tk));
    assert(empty + taken =~= taken);
    match tk {
        Take::Stop(_, _) => {},
        Take::Continue(a2, b2, o2) => {
            lemma_tail_safe(segs, chunks, i + 1, o2, b2, a2);
            let x2 = lemma_tail_content(segs, chunks, i + 1, o2, b2, a2);
            if i + 1 < segs.len() {
                assert(segs[i + 1].base_offset == segs[i].next_offset);
            }
            lemma_increasing_concat(taken, x2);
            let x = taken + x2;
            assert(a2 + x2 =~= x);
            assert(x[0] == r);
            assert forall|k: int| 0 <= k < x.len() implies exists|a: int, c: int|
                i <= a < chunks.len() && 0 <= c < chunks[a].len() && #[trigger] x[k] == chunks[a][c] by {
                if k < taken.len() {
                    assert(x[k] == taken[k]);
                } else {
                    assert(x[k] == x2[k - taken.len()]);
                    let (a, c) = choose|a: int, c: int|
                        i + 1 <= a < chunks.len() && 0 <= c < chunks[a].len() && #[trigger] x2[k
                            - taken.len()] == chunks[a][c];
                    assert(i <= a);
                }
            }
        },
    }
}

/// In a partition holding runs of records, a record appended with
/// timestamp `ts` at the offset the append returns is what a read of that
/// offset gives back, and what a fetch from it with a budget above zero
/// gives first, in the active segment or in the new one rotation started.
pub proof fn law_read_after_append(
    pv: PartitionView,
    chunks: Seq<Seq<RecordView>>,
    key: Option<Seq<u8>>,
    value: Option<Seq<u8>>,
    ts: u64,
    m: u32,
)
    requires
        partition_holds(pv.segments, chunks),
        pv.segments.last().next_offset < u64::MAX,
        28 + opt_len(key) + opt_len(value) <= u32::MAX,
        partition_append_outcome(pv, key, value) is Ok,
        m > 0,
    ensures
        ({
            let pv2 = PartitionView { segments: partition_appended(pv, key, value, ts), ..pv };
            let o = pv.segments.last().next_offset;
            let r = RecordView { offset: o, timestamp_ms: ts, key, value };
            let out = partition_read_batch_outcome(pv2, o, m);
            &&& partition_append_outcome(pv, key, value) == Ok::<u64, RukaError>(o)
            &&& partition_read_outcome(pv2, o) == ReadOutcome::Found(r)
            &&& !out.1
            &&& out.0.len() >= 1
            &&& out.0[0] == r
        }),
{
    let segs = pv.segments;
    let n = segs.len() as int;
    let last = segs.last();
    let pv2 = PartitionView { segments: partition_appended(pv, key, value, ts), ..pv };
    let c2 = chunks_after_append(pv, chunks, key, value, ts);
    law_partition_append_holds(pv, chunks, key, value, ts);
    let (i, j) = if append_outcome(last, key, value) is Ok {
        (n - 1, chunks[n - 1].len() as int)
    } else {
        (n, 0int)
    };
    assert(0 <= i < c2.len() && 0 <= j < c2[i].len());
    law_partition_read_after_write(pv2.segments, c2, i, j);
    law_partition_fetch(pv2, c2, i, j, m);
}

/// Taking records gathers a run from the front of those offered from `k`
/// on, after what was gathered before; all of them when it goes on.
proof fn lemma_take_content(
    recs: Seq<RecordView>,
    k: int,
    b: u32,
    acc: Seq<RecordView>,
    o: u64,
) -> (t: int)
    requires
        0 <= k <= recs.len(),
    ensures
        0 <= t <= recs.len() - k,
        take_gathered(take_records(recs, k, b, acc, o)) == acc + recs.subrange(k, k + t),
        take_records(recs, k, b, acc, o) is Continue ==> t == recs.len() - k,
    decreases recs.len() - k,
{
    if k == recs.len() {
        assert(acc + recs.subrange(k, k) =~= acc);
        0
    } else {
        let r = recs[k];
        let l = budget_len(r);
        if l <= u32::MAX && b >= l && r.offset != u64::MAX {
            let t1 = lemma_take_content(recs, k + 1, (b - l) as u32, acc.push(r), (r.offset + 1) as u64);
            assert(acc.push(r) + recs.subrange(k + 1, k + 1 + t1) =~= acc + recs.subrange(k, k + 1 + t1));
            1 + t1
        } else if l <= u32::MAX && b < l && acc.len() == 0 {
            assert(acc.push(r) =~= acc + recs.subrange(k, k + 1));
            1
        } else {
            assert(acc + recs.subrange(k, k) =~= acc);
            0
        }
    }
}

/// Every record of `x` is one of the records held by the segments from
/// `lo` on.
pub open spec fn from_segments(x: Seq<RecordView>, chunks: Seq<Seq<RecordView>>, lo: int) -> bool {
    forall|k: int|
        0 <= k < x.len() ==> exists|a: int, c: int|
            lo <= a < chunks.len() && 0 <= c < chunks[a].len() && #[trigger] x[k] == chunks[a][c]
}

/// Two runs with increasing offsets, all of the first below all of the
/// second, make one.
proof fn lemma_increasing_concat(a: Seq<RecordView>, b: Seq<RecordView>)
    requires
        increasing(a),
        increasing(b),
        forall|i: int, j: int| 0 <= i < a.len() && 0 <= j < b.len() ==> a[i].offset < b[j].offset,
    ensures
        increasing(a + b),
{
    let c = a + b;
    assert forall|i: int, j: int| 0 <= i < j < c.len() implies c[i].offset < c[j].offset by {
        if j < a.len() {
        } else if i < a.len() {
            assert(c[j] == b[j - a.len()]);
        } else {
            assert(c[i] == b[i - a.len()] && c[j] == b[j - a.len()]);
        }
    }
}

/// The `t` records of segment `idx` from its `j`-th on, in a partition
/// holding runs of records: increasing offsets from the `j`-th record's
/// and below the segment's next offset, each a record the segment holds.
proof fn lemma_chunk_range(
    segs: Seq<SegmentView>,
    chunks: Seq<Seq<RecordView>>,
    idx: int,
    j: int,
    t: int,
)
    requires
        partition_holds(segs, chunks),
        0 <= idx < segs.len(),
        0 <= j,
        0 <= t,
        j + t <= chunks[idx].len(),
    ensures
        increasing(chunks[idx].subrange(j, j + t)),
        from_segments(chunks[idx].subrange(j, j + t), chunks, idx),
        forall|k: int|
            0 <= k < t ==> segs[idx].base_offset + j <= #[trigger] chunks[idx].subrange(
                j,
                j + t,
            )[k].offset < segs[idx].next_offset,
{
    let rs = chunks[idx];
    let v = segs[idx];
    assert(holds(v, rs));
    let taken = rs.subrange(j, j + t);
    assert forall|p: int, q: int| 0 <= p < q < taken.len() implies taken[p].offset
        < taken[q].offset by {
        assert(taken[p] == rs[j + p] && taken[q] == rs[j + q]);
    }
    assert forall|k: int| 0 <= k < t implies v.base_offset + j <= #[trigger] taken[k].offset
        < v.next_offset by {
        assert(taken[k] == rs[j + k]);
        assert(rs[j + k].offset == v.base_offset + (j + k));
        if j + k < rs.len() - 1 {
            assert(rs[j + k].offset < rs.last().offset);
        }
    }
    assert forall|k: int| 0 <= k < taken.len() implies exists|a: int, c: int|
        idx <= a < chunks.len() && 0 <= c < chunks[a].len() && #[trigger] taken[k] == chunks[a][c] by {
        assert(taken[k] == chunks[idx][j + k]);
    }
}

/// The records a fetch gathers going on from segment `idx`, each from its
/// base offset, over a partition holding runs of records: held records of
/// those segments, with increasing offsets, none below the segment's base.
#[verifier::spinoff_prover]
proof fn lemma_tail_content(
    segs: Seq<SegmentView>,
    chunks: Seq<Seq<RecordView>>,
    idx: int,
    o: u64,
    b: u32,
    acc: Seq<RecordView>,
) -> (x: Seq<RecordView>)
    requires
        partition_holds(segs, chunks),
        0 <= idx <= segs.len(),
    ensures
        batch_from(segs, idx, next_base(segs, idx, o), b, acc).0 == acc + x,
        increasing(x),
        from_segments(x, chunks, idx),
        idx < segs.len() ==> forall|k: int| 0 <= k < x.len() ==> x[k].offset >= segs[idx].base_offset,
    decreases segs.len() - idx,
{
    let empty = Seq::<RecordView>::empty();
    if idx == segs.len() || b == 0 {
        assert(acc + empty =~= acc);
        return empty;
    }
    let v = segs[idx];
    let rs = chunks[idx];
    assert(holds(v, rs));
    let base = v.base_offset;
    assert(next_base(segs, idx, o) == base);
    if rs.len() == 0 {
        assert(read_batch_outcome(v, base, b) == (empty, false));
        let x = lemma_tail_content(segs, chunks, idx + 1, base, b, acc);
        assert(from_segments(x, chunks, idx)) by {
            assert forall|k: int| 0 <= k < x.len() implies exists|a: int, c: int|
                idx <= a < chunks.len() && 0 <= c < chunks[a].len() && #[trigger] x[k] == chunks[a][c] by {
                let (a, c) = choose|a: int, c: int|
                    idx + 1 <= a < chunks.len() && 0 <= c < chunks[a].len() && #[trigger] x[k] == chunks[a][c];
                assert(idx <= a);
            }
        }
        if idx + 1 < segs.len() {
            assert(segs[idx + 1].base_offset == v.next_offset);
        }
        return x;
    }
    assert(rs[0].offset == base + 0);
    lemma_segment_fetch(v, rs, 0, b);
    law_read_batch(v, rs, 0, b);
    let got = read_batch_outcome(v, base, b).0;
    let tail = rs.skip(0);
    lemma_batch_more_len(tail.drop_first(), b as int, record_size(tail[0]) as int);
    let cnt = batch_count(tail, b as int);
    assert(got == rs.subrange(0, cnt as int));
    let t = lemma_take_content(got, 0, b, acc, base);
    let taken = got.subrange(0, t);
    assert(taken =~= rs.subrange(0, t));
    lemma_chunk_range(segs, chunks, idx, 0, t);
    assert(rs.subrange(0, 0 + t) =~= rs.subrange(0, t));
    assert(batch_from(segs, idx, base, b, acc) == after_take(
        segs,
        idx,
        take_records(got, 0, b, acc, base),
    ));
    match take_records(got, 0, b, acc, base) {
        Take::Stop(_, _) => {
            assert(batch_from(segs, idx, base, b, acc).0 == acc + taken);
            taken
        },
        Take::Continue(a2, b2, o2) => {
            assert(a2 == acc + taken);
            let x2 = lemma_tail_content(segs, chunks, idx + 1, o2, b2, a2);
            assert(batch_from(segs, idx, base, b, acc) == batch_from(
                segs,
                idx + 1,
                next_base(segs, idx + 1, o2),
                b2,
                a2,
            ));
            let x = taken + x2;
            assert(acc + x =~= a2 + x2);
            if idx + 1 < segs.len() {
                assert(segs[idx + 1].base_offset == v.next_offset);
            }
            lemma_increasing_concat(taken, x2);
            assert forall|k: int| 0 <= k < x.len() implies exists|a: int, c: int|
                idx <= a < chunks.len() && 0 <= c < chunks[a].len() && #[trigger] x[k] == chunks[a][c] by {
                if k < taken.len() {
                    assert(x[k] == taken[k]);
                } else {
                    assert(x[k] == x2[k - taken.len()]);
                    let (a, c) = choose|a: int, c: int|
                        idx + 1 <= a < chunks.len() && 0 <= c < chunks[a].len() && #[trigger] x2[k - taken.len()] == chunks[a][c];
                    assert(idx <= a);
                }
            }
            assert forall|k: int| 0 <= k < x.len() implies x[k].offset >= base by {
                if k < taken.len() {
                    assert(x[k] == taken[k]);
                } else {
                    assert(x[k] == x2[k - taken.len()]);
                    if idx + 1 < segs.len() {
                        lemma_base_le_next(v, rs);
                    }
                }
            }
            x
        },
    }
}

/// Rebuilding each segment of a partition holding runs of records from its
/// own log bytes, with its own index entries or with none, does not panic
/// and gives the segments back; assembling a partition from them, in that
/// order, keeps them as they are.
pub proof fn law_partition_reload(
    segs: Seq<SegmentView>,
    chunks: Seq<Seq<RecordView>>,
    indexes: Seq<Result<Index, RukaError>>,
)
    requires
        partition_holds(segs, chunks),
        indexes.len() == segs.len(),
        forall|i: int|
            0 <= i < segs.len() ==> read_entries(#[trigger] indexes[i]) == segs[i].index
                || read_entries(indexes[i]).len() == 0,
    ensures
        forall|i: int| 0 <= i < segs.len() ==> !load_panics(#[trigger] segs[i].log, 0),
        ({
            let r = Seq::new(
                segs.len(),
                |i: int|
                    reloaded(
                        segs[i].base_offset,
                        segs[i].max_bytes,
                        segs[i].sync_level,
                        segs[i].log,
                        indexes[i],
                    ),
            );
            r == segs && sort_by_base(r) == segs
        }),
{
    let r = Seq::new(
        segs.len(),
        |i: int|
            reloaded(
                segs[i].base_offset,
                segs[i].max_bytes,
                segs[i].sync_level,
                segs[i].log,
                indexes[i],
            ),
    );
    assert forall|i: int| 0 <= i < segs.len() implies !load_panics(#[trigger] segs[i].log, 0)
        && r[i] == segs[i] by {
        assert(holds(segs[i], chunks[i]));
        assert(read_entries(indexes[i]) == segs[i].index || read_entries(indexes[i]).len() == 0);
        law_reload(segs[i], chunks[i], indexes[i]);
    }
    assert(r =~= segs);
    law_partition_reassemble(segs, chunks);
}

/// One round of a batch append keeps every segment within its size limit.
#[verifier::spinoff_prover]
pub proof fn law_batch_step_within_limits(
    segs: Seq<SegmentView>,
    chunks: Seq<Seq<RecordView>>,
    ps: Seq<Seq<u8>>,
    ts: u64,
    max: u64,
    sync_level: SyncLevel,
)
    requires
        partition_holds(segs, chunks),
        within_limits(segs),
        ps.len() > 0,
        forall|j: int| 0 <= j < ps.len() ==> 28 + #[trigger] ps[j].len() <= u32::MAX,
        segs.last().next_offset + ps.len() <= u64::MAX,
    ensures
        within_limits(batch_step(segs, ps, ts, max, sync_level).0),
{
    let n = segs.len() as int;
    let last = segs.last();
    let step = batch_step(segs, ps, ts, max, sync_level);
    assert(holds(segs[n - 1], chunks[n - 1]));
    lemma_batch_plan_bounds(ps, 0, last.log.len() as int, last.max_bytes);
    match batch_plan(ps, 0, last.log.len() as int, last.max_bytes) {
        BatchPlan::Take(k) => {
            let recs = batch_records(ps, k, last.next_offset, ts);
            lemma_plan_bytes(ps, 0, last.log.len() as int, last.max_bytes);
            lemma_batch_log_len(ps, k, last.next_offset, ts);
            assert forall|j: int| 0 <= j < recs.len() implies encodable(#[trigger] recs[j]) by {
                assert(28 + ps[j].len() <= u32::MAX);
            }
            law_append_all_holds(last, chunks[n - 1], recs);
            lemma_log_concat(chunks[n - 1], recs);
            let filled = appended_all(last, recs);
            assert(filled.log.len() <= filled.max_bytes);
            assert forall|i: int| 0 <= i < step.0.len() implies #[trigger] step.0[i].log.len()
                <= step.0[i].max_bytes by {
                if i < n - 1 {
                    assert(segs[i].log.len() <= segs[i].max_bytes);
                }
            }
        },
        _ => {
            assert forall|i: int| 0 <= i < step.0.len() implies #[trigger] step.0[i].log.len()
                <= step.0[i].max_bytes by {
                if i < n {
                    assert(segs[i].log.len() <= segs[i].max_bytes);
                }
            }
        },
    }
}

} // verus!
