//! What a segment or a partition holds, read off its own bytes, and the laws
//! that every segment made by `create` and appends, and every partition
//! made by `open_or_create` and appends, keeps.
use vstd::prelude::*;
use crate::error::RukaError;
use crate::storage::index::Index;
use crate::storage::log_model::{
    holds, law_append_holds, law_create_holds, law_read_after_write, law_read_missing, law_reload,
    lemma_partial_record, lemma_scan_log, lemma_scan_tail, log_of, pos_of,
};
use crate::storage::record::{encodable, opt_len, record_bytes, record_size, RecordView};
use crate::storage::segment::{load_panics, loaded_index, scan_end, scan_entries};
use crate::storage::record::{record_outcome, RecordOutcome};
use crate::storage::segment::{
    append_outcome, appended, new_record, read_at_outcome, read_batch_outcome, read_entries,
    reloaded, scan_records, ReadOutcome, SegmentView,
};
use crate::config::SyncLevel;
use crate::storage::partition::{
    after_take, batch_from, budget_len, next_base, partition_read_batch_outcome, take_records,
    Take, batch_run, batch_step, bases_sorted, insert_at, lemma_insert_at, lemma_sort_by_base, fresh_segment, lemma_last_base_sorted, partition_append_outcome,
    partition_appended, partition_read_outcome, segment_for, sort_by_base, BatchRun,
    PartitionView,
};
use crate::storage::partition_model::{
    carries, chunks_after_append, chunks_after_step, law_batch_step_holds,
    law_partition_append_holds, law_partition_read_after_write, law_partition_read_past_end,
    law_partition_reload, lemma_chain, partition_holds,
};
use crate::storage::segment::{batch_plan, batch_records, lemma_batch_plan_bounds, BatchPlan};

verus! {

/// The records a segment's log holds, in order: those that scanning it from
/// the start decodes.
pub open spec fn segment_records(v: SegmentView) -> Seq<RecordView> {
    scan_records(v.log, 0).map_values(|e: (RecordView, int)| e.0)
}

/// The segment is what appends made of a new segment: its log, its index
/// and its next offset agree with the records it holds, and those records
/// are numbered on from its base offset.
pub open spec fn segment_kept(v: SegmentView) -> bool {
    &&& holds(v, segment_records(v))
    &&& forall|k: int|
        0 <= k < segment_records(v).len() ==> #[trigger] segment_records(v)[k].offset
            == v.base_offset + k
}

/// A segment holding `rs` holds exactly `rs`.
pub proof fn lemma_holds_records(v: SegmentView, rs: Seq<RecordView>)
    requires
        holds(v, rs),
    ensures
        segment_records(v) == rs,
{
    reveal(log_of);
    assert(rs.take(0) =~= Seq::<RecordView>::empty());
    assert(pos_of(rs, 0) == 0);
    assert forall|k: int| 0 <= k < rs.len() implies #[trigger] rs[k].offset < u64::MAX by {
        if k < rs.len() - 1 {
            assert(rs[k].offset < rs.last().offset);
        }
    }
    lemma_scan_log(rs, 0);
    assert(segment_records(v) =~= rs);
}

/// A kept segment holds as many records as its next offset is past its
/// base.
pub proof fn lemma_kept_len(v: SegmentView)
    requires
        segment_kept(v),
    ensures
        segment_records(v).len() == v.next_offset - v.base_offset,
{
    let rs = segment_records(v);
    if rs.len() > 0 {
        assert(rs[rs.len() - 1].offset == v.base_offset + rs.len() - 1);
    }
}

/// A new segment is kept and holds no records.
pub proof fn law_segment_created(v: SegmentView)
    requires
        v.log.len() == 0,
        v.index.len() == 0,
        v.next_offset == v.base_offset,
    ensures
        segment_kept(v),
        segment_records(v) == Seq::<RecordView>::empty(),
{
    law_create_holds(v);
    lemma_holds_records(v, Seq::empty());
}

/// Appending to a kept segment keeps it, and adds the record written at
/// the end of what it holds.
pub proof fn law_segment_append(
    v: SegmentView,
    key: Option<Seq<u8>>,
    value: Option<Seq<u8>>,
    ts: u64,
)
    requires
        segment_kept(v),
        append_outcome(v, key, value) is Ok,
        v.next_offset < u64::MAX,
        28 + opt_len(key) + opt_len(value) <= u32::MAX,
    ensures
        segment_kept(appended(v, new_record(v, key, value, ts))),
        segment_records(appended(v, new_record(v, key, value, ts))) == segment_records(v).push(
            new_record(v, key, value, ts),
        ),
{
    let rs = segment_records(v);
    let r = new_record(v, key, value, ts);
    assert(encodable(r));
    lemma_kept_len(v);
    law_append_holds(v, rs, r);
    let w = appended(v, r);
    lemma_holds_records(w, rs.push(r));
    assert forall|k: int| 0 <= k < segment_records(w).len() implies #[trigger] segment_records(
        w,
    )[k].offset == w.base_offset + k by {
        if k < rs.len() {
            assert(segment_records(w)[k] == rs[k]);
        }
    }
}

/// Reading a kept segment at an offset from its base up to its next offset
/// gives the record at that place; any other offset reads as missing.
pub proof fn law_segment_read(v: SegmentView, o: u64)
    requires
        segment_kept(v),
    ensures
        read_at_outcome(v, o) == (if v.base_offset <= o < v.next_offset {
            ReadOutcome::Found(segment_records(v)[o - v.base_offset])
        } else {
            ReadOutcome::Missing
        }),
{
    let rs = segment_records(v);
    lemma_kept_len(v);
    if v.base_offset <= o < v.next_offset {
        let i = o - v.base_offset;
        assert(rs[i].offset == o);
        law_read_after_write(v, rs, i);
    } else {
        assert forall|i: int| 0 <= i < rs.len() implies #[trigger] rs[i].offset != o by {
            assert(rs[i].offset == v.base_offset + i);
        }
        law_read_missing(v, rs, o);
    }
}

/// A kept segment rebuilt from its own log, with its own index entries or
/// with none, is the same segment.
pub proof fn law_segment_reload(v: SegmentView, index: Result<Index, RukaError>)
    requires
        segment_kept(v),
        read_entries(index) == v.index || read_entries(index).len() == 0,
    ensures
        reloaded(v.base_offset, v.max_bytes, v.sync_level, v.log, index) == v,
{
    law_reload(v, segment_records(v), index);
}

/// The runs of records the segments hold, one per segment.
pub open spec fn segment_chunks(segs: Seq<SegmentView>) -> Seq<Seq<RecordView>> {
    segs.map_values(|v: SegmentView| segment_records(v))
}

/// The runs of records one after another.
pub open spec fn flatten(c: Seq<Seq<RecordView>>) -> Seq<RecordView>
    decreases c.len(),
{
    if c.len() == 0 {
        Seq::empty()
    } else {
        flatten(c.drop_last()) + c.last()
    }
}

/// The records a partition holds, oldest first.
pub open spec fn partition_records(segs: Seq<SegmentView>) -> Seq<RecordView> {
    flatten(segment_chunks(segs))
}

/// The partition is what appends made of a new partition: each segment is
/// kept, and each starts at the offset where the one before ends.
pub open spec fn partition_kept(segs: Seq<SegmentView>) -> bool {
    partition_holds(segs, segment_chunks(segs))
}

/// Segments holding runs of records are kept, and those runs are what
/// they hold.
pub proof fn lemma_chunks_of(segs: Seq<SegmentView>, chunks: Seq<Seq<RecordView>>)
    requires
        partition_holds(segs, chunks),
    ensures
        segment_chunks(segs) == chunks,
        partition_kept(segs),
{
    assert forall|i: int| 0 <= i < segs.len() implies segment_records(#[trigger] segs[i])
        == chunks[i] by {
        lemma_holds_records(segs[i], chunks[i]);
    }
    assert(segment_chunks(segs) =~= chunks);
}

/// Adding `x` to the last run, or as a new run, adds `x` at the end.
pub proof fn lemma_flatten_grow(c: Seq<Seq<RecordView>>, x: Seq<RecordView>)
    ensures
        flatten(c.push(x)) == flatten(c) + x,
        c.len() > 0 ==> flatten(c.update(c.len() - 1, c.last() + x)) == flatten(c) + x,
{
    assert(c.push(x).drop_last() =~= c);
    if c.len() > 0 {
        let d = c.update(c.len() - 1, c.last() + x);
        assert(d.drop_last() =~= c.drop_last());
        assert(flatten(d) =~= flatten(c) + x);
    }
}

/// A kept partition without its last segment is kept.
proof fn lemma_kept_prefix(segs: Seq<SegmentView>)
    requires
        partition_kept(segs),
        segs.len() > 1,
    ensures
        partition_kept(segs.drop_last()),
        segment_chunks(segs.drop_last()) == segment_chunks(segs).drop_last(),
        partition_records(segs) == partition_records(segs.drop_last()) + segment_records(
            segs.last(),
        ),
{
    let p = segs.drop_last();
    assert(segment_chunks(p) =~= segment_chunks(segs).drop_last());
    assert forall|i: int| 0 <= i < p.len() implies holds(#[trigger] p[i], segment_chunks(p)[i]) by {
        assert(holds(segs[i], segment_chunks(segs)[i]));
    }
    assert forall|i: int, k: int|
        0 <= i < p.len() && 0 <= k < segment_chunks(p)[i].len() implies #[trigger] segment_chunks(
        p,
    )[i][k].offset == p[i].base_offset + k by {
        assert(segment_chunks(segs)[i][k].offset == segs[i].base_offset + k);
    }
    assert forall|i: int| 0 < i < p.len() implies #[trigger] p[i].base_offset == p[i
        - 1].next_offset by {
        assert(segs[i].base_offset == segs[i - 1].next_offset);
    }
}

/// Each segment of a kept partition is kept.
pub proof fn lemma_kept_segment(segs: Seq<SegmentView>, i: int)
    requires
        partition_kept(segs),
        0 <= i < segs.len(),
    ensures
        segment_kept(segs[i]),
{
    assert(holds(segs[i], segment_chunks(segs)[i]));
    assert forall|k: int| 0 <= k < segment_records(segs[i]).len() implies #[trigger] segment_records(
        segs[i],
    )[k].offset == segs[i].base_offset + k by {
        assert(segment_chunks(segs)[i][k].offset == segs[i].base_offset + k);
    }
}

/// A kept partition holds its records numbered on from its first base
/// offset up to its next offset; each of them is held by some segment.
pub proof fn lemma_partition_layout(segs: Seq<SegmentView>)
    requires
        partition_kept(segs),
    ensures
        partition_records(segs).len() == segs.last().next_offset - segs[0].base_offset,
        forall|i: int|
            0 <= i < partition_records(segs).len() ==> (#[trigger] partition_records(segs)[i]).offset
                == segs[0].base_offset + i,
        forall|i: int|
            0 <= i < partition_records(segs).len() ==> exists|k: int, j: int|
                0 <= k < segs.len() && 0 <= j < segment_chunks(segs)[k].len() && segment_chunks(
                    segs,
                )[k][j] == #[trigger] partition_records(segs)[i],
    decreases segs.len(),
{
    let c = segment_chunks(segs);
    let n = segs.len() as int;
    let last = segs.last();
    lemma_kept_segment(segs, n - 1);
    lemma_kept_len(last);
    let lr = segment_records(last);
    if n == 1 {
        assert(c.drop_last() =~= Seq::<Seq<RecordView>>::empty());
        assert(flatten(c.drop_last()) == Seq::<RecordView>::empty());
        assert(c.last() == lr);
        assert(partition_records(segs) =~= lr);
        assert forall|i: int| 0 <= i < partition_records(segs).len() implies exists|k: int, j: int|
            0 <= k < segs.len() && 0 <= j < segment_chunks(segs)[k].len() && segment_chunks(
                segs,
            )[k][j] == #[trigger] partition_records(segs)[i] by {
            assert(c[0][i] == partition_records(segs)[i]);
        }
    } else {
        let p = segs.drop_last();
        lemma_kept_prefix(segs);
        lemma_partition_layout(p);
        let pr = partition_records(p);
        let all = partition_records(segs);
        assert(last.base_offset == segs[n - 2].next_offset);
        assert(p.last() == segs[n - 2]);
        assert(p[0] == segs[0]);
        assert forall|i: int| 0 <= i < all.len() implies (#[trigger] all[i]).offset
            == segs[0].base_offset + i by {
            if i < pr.len() {
                assert(all[i] == pr[i]);
            } else {
                assert(all[i] == lr[i - pr.len()]);
            }
        }
        assert forall|i: int| 0 <= i < all.len() implies exists|k: int, j: int|
            0 <= k < segs.len() && 0 <= j < segment_chunks(segs)[k].len() && segment_chunks(
                segs,
            )[k][j] == #[trigger] all[i] by {
            if i < pr.len() {
                assert(all[i] == pr[i]);
                let (k, j) = choose|k: int, j: int|
                    0 <= k < p.len() && 0 <= j < segment_chunks(p)[k].len() && segment_chunks(
                        p,
                    )[k][j] == #[trigger] pr[i];
                assert(segment_chunks(p)[k] == c[k]);
            } else {
                assert(all[i] == c[n - 1][i - pr.len()]);
            }
        }
    }
}

/// A new partition's single empty segment is kept and holds no records.
pub proof fn law_partition_created(base: u64, max: u64, sync_level: SyncLevel)
    ensures
        partition_kept(seq![fresh_segment(base, max, sync_level)]),
        partition_records(seq![fresh_segment(base, max, sync_level)]) == Seq::<RecordView>::empty(),
{
    let segs = seq![fresh_segment(base, max, sync_level)];
    law_segment_created(segs[0]);
    assert(segment_chunks(segs) =~= seq![Seq::<RecordView>::empty()]);
    assert(segment_chunks(segs).drop_last() =~= Seq::<Seq<RecordView>>::empty());
    assert(flatten(segment_chunks(segs).drop_last()) == Seq::<RecordView>::empty());
    assert(partition_records(segs) =~= Seq::<RecordView>::empty());
}

/// Appending a record to a kept partition keeps it; a record that is
/// written, in the active segment or in the new one that rotation starts,
/// is added at the end of what it holds, at the offset the append returns,
/// and a refused one adds nothing.
pub proof fn law_partition_append(
    pv: PartitionView,
    key: Option<Seq<u8>>,
    value: Option<Seq<u8>>,
    ts: u64,
)
    requires
        partition_kept(pv.segments),
        partition_append_outcome(pv, key, value) is Ok ==> pv.segments.last().next_offset
            < u64::MAX,
        28 + opt_len(key) + opt_len(value) <= u32::MAX,
    ensures
        partition_kept(partition_appended(pv, key, value, ts)),
        partition_records(partition_appended(pv, key, value, ts)) == match partition_append_outcome(
            pv,
            key,
            value,
        ) {
            Ok(o) => partition_records(pv.segments).push(
                RecordView { offset: o, timestamp_ms: ts, key, value },
            ),
            Err(_) => partition_records(pv.segments),
        },
{
    let segs = pv.segments;
    let c = segment_chunks(segs);
    law_partition_append_holds(pv, c, key, value, ts);
    let segs2 = partition_appended(pv, key, value, ts);
    let c2 = chunks_after_append(pv, c, key, value, ts);
    lemma_chunks_of(segs2, c2);
    let last = segs.last();
    let n = segs.len() as int;
    match append_outcome(last, key, value) {
        Ok(_) => {
            let r = new_record(last, key, value, ts);
            lemma_flatten_grow(c, seq![r]);
            assert(c[n - 1].push(r) =~= c.last() + seq![r]);
            assert(flatten(c) + seq![r] =~= flatten(c).push(r));
        },
        Err(RukaError::SegmentFull { .. }) => {
            let f = fresh_segment(last.next_offset, pv.max_segment_bytes, pv.sync_level);
            if append_outcome(f, key, value) is Ok {
                let r = new_record(f, key, value, ts);
                lemma_flatten_grow(c, seq![r]);
                assert(flatten(c) + seq![r] =~= flatten(c).push(r));
            } else {
                lemma_flatten_grow(c, Seq::empty());
                assert(flatten(c) + Seq::<RecordView>::empty() =~= flatten(c));
            }
        },
        Err(_) => {},
    }
}

/// Reading a kept partition at an offset from its first base up to its
/// next offset gives the record at that place; any other offset reads as
/// missing.
pub proof fn law_partition_read(pv: PartitionView, o: u64)
    requires
        partition_kept(pv.segments),
    ensures
        partition_read_outcome(pv, o) == (if pv.segments[0].base_offset <= o
            < pv.segments.last().next_offset {
            ReadOutcome::Found(partition_records(pv.segments)[o - pv.segments[0].base_offset])
        } else {
            ReadOutcome::Missing
        }),
{
    let segs = pv.segments;
    let c = segment_chunks(segs);
    let first = segs[0].base_offset;
    lemma_partition_layout(segs);
    if first <= o < segs.last().next_offset {
        let i = o - first;
        let rec = partition_records(segs)[i];
        let (k, j) = choose|k: int, j: int|
            0 <= k < segs.len() && 0 <= j < c[k].len() && c[k][j] == #[trigger] partition_records(
                segs,
            )[i];
        law_partition_read_after_write(segs, c, k, j);
    } else if o >= segs.last().next_offset {
        law_partition_read_past_end(segs, c, o);
    } else {
        assert forall|k: int| 0 <= k < segs.len() implies segs[k].base_offset > o by {
            if k > 0 {
                lemma_chain(segs, c, 0, k);
            }
        }
        lemma_last_base_sorted(segs, o, segs.len() as int, 0);
        assert(segment_for(segs, o) is None);
    }
}

/// Rebuilding each segment of a kept partition from its own log, with its
/// own index entries or with none, and assembling them into a partition
/// again gives the same segments, which hold the same records.
pub proof fn law_partition_reopen(segs: Seq<SegmentView>, indexes: Seq<Result<Index, RukaError>>)
    requires
        partition_kept(segs),
        indexes.len() == segs.len(),
        forall|i: int|
            0 <= i < segs.len() ==> read_entries(#[trigger] indexes[i]) == segs[i].index
                || read_entries(indexes[i]).len() == 0,
    ensures
        ({
            let r = Seq::new(
                segs.len(),
                |i: int|
                    reloaded(
                        segs[i].base_offset,
                        segs[i].max_bytes,
                        segs[i].sync_level,
                        segs[i].log,
                        indexes[i],
                    ),
            );
            &&& sort_by_base(r) == segs
            &&& partition_kept(sort_by_base(r))
            &&& partition_records(sort_by_base(r)) == partition_records(segs)
        }),
{
    law_partition_reload(segs, segment_chunks(segs), indexes);
}

/// `b` is `a` followed by `k` records that carry the first `k` payloads of
/// `ps`, without a key, at the offsets from `first` on.
pub open spec fn extends_with(
    a: Seq<RecordView>,
    b: Seq<RecordView>,
    first: u64,
    ps: Seq<Seq<u8>>,
    k: int,
) -> bool {
    &&& 0 <= k <= ps.len()
    &&& b.len() == a.len() + k
    &&& b.take(a.len() as int) == a
    &&& forall|j: int| 0 <= j < k ==> carries(b[a.len() + j], (first + j) as u64, #[trigger] ps[j])
}

/// Two extensions one after the other are one extension.
proof fn lemma_extends_chain(
    a: Seq<RecordView>,
    b: Seq<RecordView>,
    c: Seq<RecordView>,
    first: u64,
    ps: Seq<Seq<u8>>,
    k: int,
    m: int,
)
    requires
        extends_with(a, b, first, ps, k),
        extends_with(b, c, (first + k) as u64, ps.skip(k), m),
        first + ps.len() <= u64::MAX,
    ensures
        extends_with(a, c, first, ps, k + m),
{
    assert(c.take(a.len() as int) =~= b.take(a.len() as int));
    assert forall|j: int| 0 <= j < k + m implies carries(
        c[a.len() + j],
        (first + j) as u64,
        #[trigger] ps[j],
    ) by {
        if j < k {
            assert(c[a.len() + j] == c.take(b.len() as int)[a.len() + j]);
            assert(carries(b[a.len() + j], (first + j) as u64, ps[j]));
        } else {
            let i = j - k;
            assert(ps.skip(k)[i] == ps[j]);
            assert(carries(c[b.len() + i], ((first + k) as u64 + i) as u64, ps.skip(k)[i]));
        }
    }
}

/// One round of a batch append on a kept partition keeps it, and adds the
/// records of the payloads it takes.
#[verifier::spinoff_prover]
proof fn lemma_step_records(
    segs: Seq<SegmentView>,
    ps: Seq<Seq<u8>>,
    ts: u64,
    max: u64,
    sync_level: SyncLevel,
)
    requires
        partition_kept(segs),
        ps.len() > 0,
        forall|j: int| 0 <= j < ps.len() ==> 28 + #[trigger] ps[j].len() <= u32::MAX,
        segs.last().next_offset + ps.len() <= u64::MAX,
        !batch_step(segs, ps, ts, max, sync_level).2,
    ensures
        ({
            let step = batch_step(segs, ps, ts, max, sync_level);
            let taken = ps.len() - step.1.len();
            &&& partition_kept(step.0)
            &&& step.1 == ps.skip(taken)
            &&& step.0.last().next_offset == segs.last().next_offset + taken
            &&& extends_with(
                partition_records(segs),
                partition_records(step.0),
                segs.last().next_offset,
                ps,
                taken,
            )
        }),
{
    let c = segment_chunks(segs);
    let step = batch_step(segs, ps, ts, max, sync_level);
    law_batch_step_holds(segs, c, ps, ts, max, sync_level);
    let c2 = chunks_after_step(segs, c, ps, ts);
    lemma_chunks_of(step.0, c2);
    let last = segs.last();
    let n = segs.len() as int;
    let a = flatten(c);
    lemma_batch_plan_bounds(ps, 0, last.log.len() as int, last.max_bytes);
    match batch_plan(ps, 0, last.log.len() as int, last.max_bytes) {
        BatchPlan::Full => {
            lemma_flatten_grow(c, Seq::empty());
            assert(a + Seq::<RecordView>::empty() =~= a);
            assert(a.take(a.len() as int) =~= a);
        },
        BatchPlan::Take(k) => {
            let br = batch_records(ps, k, last.next_offset, ts);
            lemma_flatten_grow(c, br);
            let c1 = c.update(n - 1, c[n - 1] + br);
            assert(c1 == c.update(c.len() - 1, c.last() + br));
            if ps.skip(k as int).len() != 0 {
                lemma_flatten_grow(c1, Seq::empty());
                assert(flatten(c1) + Seq::<RecordView>::empty() =~= flatten(c1));
            }
            let b = a + br;
            assert(b.take(a.len() as int) =~= a);
            assert forall|j: int| 0 <= j < k implies carries(
                b[a.len() + j],
                (last.next_offset + j) as u64,
                #[trigger] ps[j],
            ) by {
                assert(b[a.len() + j] == br[j]);
            }
        },
        BatchPlan::TooLarge => {},
    }
}

/// The partition before a batch append is kept and every payload's record
/// length fits in 32 bits.
pub open spec fn batch_fits(segs: Seq<SegmentView>, ps: Seq<Seq<u8>>) -> bool {
    &&& partition_kept(segs)
    &&& forall|j: int| 0 <= j < ps.len() ==> 28 + #[trigger] ps[j].len() <= u32::MAX
}

/// What a batch append of `ps` keeps of the partition `before` in `after`:
/// `after` is kept; when the batch was written in full, the records carrying
/// its payloads, in order and without a key, follow what `before` held, at
/// the offsets from its next offset on; otherwise fewer such records follow.
pub open spec fn batch_kept(
    before: Seq<SegmentView>,
    after: Seq<SegmentView>,
    ps: Seq<Seq<u8>>,
    finished: bool,
) -> bool {
    &&& partition_kept(after)
    &&& finished ==> extends_with(
        partition_records(before),
        partition_records(after),
        before.last().next_offset,
        ps,
        ps.len() as int,
    )
    &&& !finished ==> exists|k: int|
        k < ps.len() && #[trigger] extends_with(
            partition_records(before),
            partition_records(after),
            before.last().next_offset,
            ps,
            k,
        )
}

/// A batch append on a kept partition keeps it. When every payload is
/// written, the records carrying them, in order and without a key, follow
/// what the partition held, at the offsets from its next offset on. When
/// a payload is too large, what was written before it stays: fewer records
/// than payloads follow what the partition held.
pub proof fn law_partition_batch(
    segs: Seq<SegmentView>,
    ps: Seq<Seq<u8>>,
    tss: Seq<u64>,
    max: u64,
    sync_level: SyncLevel,
)
    requires
        batch_fits(segs, ps),
        segs.last().next_offset + ps.len() <= u64::MAX,
    ensures
        match batch_run(segs, ps, tss, max, sync_level) {
            BatchRun::Done(s) => batch_kept(segs, s, ps, true) && s.last().next_offset
                == segs.last().next_offset + ps.len(),
            BatchRun::Failed(s) => batch_kept(segs, s, ps, false),
            BatchRun::Unfinished => true,
        },
    decreases tss.len(),
{
    let a = partition_records(segs);
    let next = segs.last().next_offset;
    assert(a.take(a.len() as int) =~= a);
    if ps.len() == 0 {
    } else if tss.len() > 0 {
        let step = batch_step(segs, ps, tss[0], max, sync_level);
        if step.2 {
            assert(extends_with(a, a, next, ps, 0));
        } else {
            assert(batch_run(segs, ps, tss, max, sync_level) == batch_run(
                step.0,
                step.1,
                tss.drop_first(),
                max,
                sync_level,
            ));
            lemma_step_records(segs, ps, tss[0], max, sync_level);
            let taken = ps.len() - step.1.len();
            let rest = step.1;
            assert forall|j: int| 0 <= j < rest.len() implies 28 + #[trigger] rest[j].len()
                <= u32::MAX by {
                assert(rest[j] == ps[taken + j]);
            }
            law_partition_batch(step.0, rest, tss.drop_first(), max, sync_level);
            let b = partition_records(step.0);
            match batch_run(step.0, rest, tss.drop_first(), max, sync_level) {
                BatchRun::Done(s) => {
                    lemma_extends_chain(a, b, partition_records(s), next, ps, taken, rest.len() as int);
                },
                BatchRun::Failed(s) => {
                    let m = choose|m: int|
                        m < rest.len() && #[trigger] extends_with(
                            b,
                            partition_records(s),
                            step.0.last().next_offset,
                            rest,
                            m,
                        );
                    lemma_extends_chain(a, b, partition_records(s), next, ps, taken, m);
                },
                BatchRun::Unfinished => {},
            }
        }
    }
}

/// A kept segment whose log ends in the first bytes of a record that was
/// never written in full is rebuilt as it was before that record: loading
/// does not panic, cuts those bytes off, and keeps the records, the next
/// offset and the index, whether the index was read back or is rebuilt.
pub proof fn law_segment_recover(v: SegmentView, r: RecordView, k: int, index: Result<Index, RukaError>)
    requires
        segment_kept(v),
        encodable(r),
        0 <= k < record_size(r),
        read_entries(index) == v.index || read_entries(index).len() == 0,
    ensures
        !load_panics(v.log + record_bytes(r).take(k), 0),
        reloaded(v.base_offset, v.max_bytes, v.sync_level, v.log + record_bytes(r).take(k), index)
            == v,
{
    let rs = segment_records(v);
    let tail = record_bytes(r).take(k);
    lemma_partial_record(r, k);
    reveal(log_of);
    assert(rs.take(0) =~= Seq::<RecordView>::empty());
    assert(pos_of(rs, 0) == 0);
    assert forall|i: int| 0 <= i < rs.len() implies #[trigger] rs[i].offset < u64::MAX by {
        if i < rs.len() - 1 {
            assert(rs[i].offset < rs.last().offset);
        }
    }
    lemma_scan_tail(rs, tail, 0);
    law_reload(v, rs, index);
    let t = v.log + tail;
    assert(t.take(v.log.len() as int) =~= v.log);
    assert(scan_records(t, 0) == scan_records(v.log, 0));
    assert(scan_end(t, 0) == v.log.len());
    if read_entries(index).len() == 0 {
        if v.log.len() == 0 {
            assert(scan_records(v.log, 0) =~= Seq::<(RecordView, int)>::empty()) by {
                lemma_scan_log(rs, 0);
            }
            assert(scan_entries(scan_records(t, 0)) =~= v.index);
        }
    }
    assert(loaded_index(index, t) == v.index);
    assert(reloaded(v.base_offset, v.max_bytes, v.sync_level, t, index) =~= v);
}

/// How many bytes records count against a fetch budget, all together.
pub open spec fn fetch_bytes(rs: Seq<RecordView>) -> int
    decreases rs.len(),
{
    if rs.len() == 0 {
        0
    } else {
        fetch_bytes(rs.drop_last()) + budget_len(rs.last())
    }
}

/// Taking a segment's records into a fetch whose gathered records and
/// budget left add up to at most `m` keeps them within `m`, but for a lone
/// first record.
proof fn lemma_take_budget(recs: Seq<RecordView>, i: int, b: u32, acc: Seq<RecordView>, o: u64, m: int)
    requires
        fetch_bytes(acc) + b <= m,
    ensures
        match take_records(recs, i, b, acc, o) {
            Take::Stop(a, _) => fetch_bytes(a) <= m || a.len() == 1,
            Take::Continue(a, b2, _) => fetch_bytes(a) + b2 <= m,
        },
    decreases recs.len() - i,
{
    if 0 <= i < recs.len() {
        let r = recs[i];
        let l = budget_len(r);
        assert(acc.push(r).drop_last() =~= acc);
        assert(l >= 28);
        if l <= u32::MAX && b >= l && r.offset != u64::MAX {
            lemma_take_budget(recs, i + 1, (b - l) as u32, acc.push(r), (r.offset + 1) as u64, m);
        }
    }
}

/// A fetch from segment `idx` on whose gathered records and budget left add
/// up to at most `m` gives records within `m`, but for a lone first record.
proof fn lemma_fetch_budget(
    segs: Seq<SegmentView>,
    idx: int,
    o: u64,
    b: u32,
    acc: Seq<RecordView>,
    m: int,
)
    requires
        fetch_bytes(acc) + b <= m,
    ensures
        fetch_bytes(batch_from(segs, idx, o, b, acc).0) <= m || batch_from(segs, idx, o, b, acc).0.len()
            == 1,
    decreases segs.len() - idx,
{
    if 0 <= idx < segs.len() && b != 0 {
        let got = read_batch_outcome(segs[idx], o, b);
        if !got.1 {
            if got.0.len() == 0 {
                lemma_fetch_budget(segs, idx + 1, next_base(segs, idx + 1, o), b, acc, m);
            } else {
                let t = take_records(got.0, 0, b, acc, o);
                lemma_take_budget(got.0, 0, b, acc, o, m);
                assert(batch_from(segs, idx, o, b, acc) == after_take(segs, idx, t));
                match t {
                    Take::Stop(_, _) => {},
                    Take::Continue(a, b2, o2) => {
                        lemma_fetch_budget(segs, idx + 1, next_base(segs, idx + 1, o2), b2, a, m);
                    },
                }
            }
        }
    }
}

/// A fetch from a partition gives records whose lengths, as the budget
/// counts them, add up to at most the budget; only a lone first record may
/// be longer.
pub proof fn law_fetch_budget(pv: PartitionView, o: u64, m: u32)
    ensures
        fetch_bytes(partition_read_batch_outcome(pv, o, m).0) <= m
            || partition_read_batch_outcome(pv, o, m).0.len() == 1,
{
    match segment_for(pv.segments, o) {
        None => {},
        Some(k) => {
            lemma_fetch_budget(pv.segments, k, o, m, Seq::empty(), m as int);
        },
    }
}

/// Sorting by base keeps the segments, each as often as before.
proof fn lemma_sort_keeps_segments(s: Seq<SegmentView>)
    ensures
        sort_by_base(s).to_multiset() == s.to_multiset(),
    decreases s.len(),
{
    broadcast use vstd::seq_lib::group_to_multiset_ensures;

    if s.len() > 0 {
        let d = s.drop_last();
        let x = s.last();
        lemma_sort_keeps_segments(d);
        lemma_sort_by_base(d);
        let t = sort_by_base(d);
        lemma_insert_at(t, x, 0);
        assert(s =~= d.push(x));
        assert(sort_by_base(s) == t.insert(insert_at(t, x, 0), x));
    }
}

/// Bases that strictly increase along the run: no two segments share one.
pub open spec fn bases_distinct(s: Seq<SegmentView>) -> bool {
    forall|i: int, j: int| 0 <= i < j < s.len() ==> s[i].base_offset < s[j].base_offset
}

/// A run sorted by base holding the same segments as a run whose bases
/// strictly increase is that run.
proof fn lemma_sorted_same(u: Seq<SegmentView>, t: Seq<SegmentView>)
    requires
        bases_sorted(u),
        bases_distinct(t),
        u.to_multiset() == t.to_multiset(),
    ensures
        u == t,
    decreases t.len(),
{
    broadcast use vstd::seq_lib::group_to_multiset_ensures;
    broadcast use vstd::multiset::group_multiset_properties;

    assert(u.len() == t.len()) by {
        assert(u.to_multiset().len() == u.len());
        assert(t.to_multiset().len() == t.len());
    }
    if t.len() > 0 {
        let n = t.len() as int;
        let x = t.last();
        let y = u.last();
        assert(t.contains(x)) by {
            assert(t[n - 1] == x);
        }
        assert(t.to_multiset().count(x) > 0);
        assert(u.to_multiset().count(x) > 0);
        assert(u.contains(x));
        let i = choose|i: int| 0 <= i < u.len() && u[i] == x;
        assert(x.base_offset <= y.base_offset) by {
            if i < n - 1 {
                assert(u[i].base_offset <= u[n - 1].base_offset);
            }
        }
        assert(u.contains(y)) by {
            assert(u[n - 1] == y);
        }
        assert(u.to_multiset().count(y) > 0);
        assert(t.to_multiset().count(y) > 0);
        assert(t.contains(y));
        let j = choose|j: int| 0 <= j < t.len() && t[j] == y;
        if j < n - 1 {
            assert(t[j].base_offset < t[n - 1].base_offset);
        }
        assert(j == n - 1);
        assert(y == x);
        let ud = u.drop_last();
        let td = t.drop_last();
        assert(u =~= ud.push(x));
        assert(t =~= td.push(x));
        assert(ud.to_multiset() =~= td.to_multiset()) by {
            assert forall|z: SegmentView| ud.to_multiset().count(z) == td.to_multiset().count(z) by {
                if z == x {
                    assert(ud.to_multiset().insert(x).count(x) == ud.to_multiset().count(x) + 1);
                    assert(td.to_multiset().insert(x).count(x) == td.to_multiset().count(x) + 1);
                } else {
                    assert(ud.to_multiset().insert(x).count(z) == ud.to_multiset().count(z));
                    assert(td.to_multiset().insert(x).count(z) == td.to_multiset().count(z));
                }
            }
        }
        assert(bases_sorted(ud));
        assert(bases_distinct(td));
        lemma_sorted_same(ud, td);
        assert(u =~= t);
    }
}

/// Segments whose bases all differ, as the names of their files do, are
/// assembled into the same run whatever order they are loaded in: sorting
/// any arrangement of them by base gives them back in order of their bases.
pub proof fn law_reassemble_any_order(segs: Seq<SegmentView>, loaded: Seq<SegmentView>)
    requires
        bases_distinct(segs),
        loaded.to_multiset() == segs.to_multiset(),
    ensures
        sort_by_base(loaded) == segs,
{
    lemma_sort_keeps_segments(loaded);
    lemma_sort_by_base(loaded);
    lemma_sorted_same(sort_by_base(loaded), segs);
}

/// The records scanning a log from its start decodes, in order.
pub open spec fn log_records(log: Seq<u8>) -> Seq<RecordView> {
    scan_records(log, 0).map_values(|e: (RecordView, int)| e.0)
}

/// Scanning a log from `pos` without panicking never meets a record with
/// the largest offset.
proof fn lemma_scan_offsets(log: Seq<u8>, pos: int)
    requires
        !load_panics(log, pos),
    ensures
        forall|k: int|
            0 <= k < scan_records(log, pos).len() ==> (#[trigger] scan_records(log, pos)[k]).0.offset
                < u64::MAX,
    decreases log.len() - pos,
{
    if 0 <= pos <= log.len() {
        match record_outcome(log.skip(pos)) {
            RecordOutcome::Decoded(r, n) => {
                if n > 0 && pos + n <= log.len() {
                    lemma_scan_offsets(log, pos + n);
                    let t = scan_records(log, pos + n);
                    assert forall|k: int|
                        0 <= k < scan_records(log, pos).len() implies (#[trigger] scan_records(
                        log,
                        pos,
                    )[k]).0.offset < u64::MAX by {
                        if k > 0 {
                            assert(scan_records(log, pos)[k] == t[k - 1]);
                        }
                    }
                }
            },
            _ => {},
        }
    }
}

/// Loading a segment takes its next offset from its log alone, whatever
/// index is read back with it: loading the same log with any two indexes
/// gives the same next offset and the same log. When loading does not
/// panic, that next offset is one past the last whole record the log holds,
/// or the base offset when it holds none.
pub proof fn law_reload_next_offset(
    base: u64,
    max: u64,
    sync_level: SyncLevel,
    log: Seq<u8>,
    index: Result<Index, RukaError>,
    other: Result<Index, RukaError>,
)
    ensures
        reloaded(base, max, sync_level, log, index).next_offset == reloaded(
            base,
            max,
            sync_level,
            log,
            other,
        ).next_offset,
        reloaded(base, max, sync_level, log, index).log == reloaded(
            base,
            max,
            sync_level,
            log,
            other,
        ).log,
        !load_panics(log, 0) ==> reloaded(base, max, sync_level, log, index).next_offset == (if log_records(
            log,
        ).len() == 0 {
            base as int
        } else {
            log_records(log).last().offset + 1
        }),
{
    if !load_panics(log, 0) {
        lemma_scan_offsets(log, 0);
        let sc = scan_records(log, 0);
        if sc.len() > 0 {
            assert(sc[sc.len() - 1].0.offset < u64::MAX);
            assert(log_records(log).last() == sc.last().0);
        }
    }
}

/// A kept segment loaded from its own log comes back the same whatever index
/// is read back with it, even one that lags the log or is corrupt: the same
/// log, the same next offset, the same records.
pub proof fn law_segment_reload_any_index(v: SegmentView, index: Result<Index, RukaError>)
    requires
        segment_kept(v),
    ensures
        reloaded(v.base_offset, v.max_bytes, v.sync_level, v.log, index).log == v.log,
        reloaded(v.base_offset, v.max_bytes, v.sync_level, v.log, index).next_offset
            == v.next_offset,
        segment_records(reloaded(v.base_offset, v.max_bytes, v.sync_level, v.log, index))
            == segment_records(v),
{
    let none: Result<Index, RukaError> = Err(RukaError::MessageTooLarge);
    assert(read_entries(none).len() == 0);
    law_reload(v, segment_records(v), none);
    law_reload_next_offset(v.base_offset, v.max_bytes, v.sync_level, v.log, index, none);
}

} // verus!
