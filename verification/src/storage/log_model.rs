//! What a segment's log means: the records it holds, and the laws that tie
//! appends, reads and reloads together.
use vstd::prelude::*;
use crate::error::RukaError;
use crate::storage::index::{index_find, lemma_find_first, lemma_find_none, IndexEntry, Index};
use crate::storage::record::{
    encodable, law_record_round_trip, lemma_outcome_extend, lemma_outcome_shrink, lemma_record_layout,
    record_bytes, record_outcome, record_size, RecordOutcome, RecordView,
};
use crate::storage::segment::{
    appended, appended_all, batch_fallback, batch_loop, batch_read_size, read_batch_outcome, load_panics, loaded_index, next_after, read_at_outcome,
    read_entries, read_record_at, reloaded, scan_end, scan_entries, scan_records, window,
    ReadOutcome,
    SegmentView,
};
use crate::wire::be32_at;

verus! {

/// The log bytes holding `rs`, in order.
#[verifier::opaque]
pub open spec fn log_of(rs: Seq<RecordView>) -> Seq<u8>
    decreases rs.len(),
{
    if rs.len() == 0 {
        Seq::empty()
    } else {
        log_of(rs.drop_last()) + record_bytes(rs.last())
    }
}

/// Where record `i` of `rs` starts in their log.
pub open spec fn pos_of(rs: Seq<RecordView>, i: int) -> int {
    log_of(rs.take(i)).len() as int
}

/// The index entries for `rs`: each offset at its record's position.
pub open spec fn entries_for(rs: Seq<RecordView>) -> Seq<IndexEntry> {
    Seq::new(rs.len(), |i: int| IndexEntry { offset: rs[i].offset, position: pos_of(rs, i) as u64 })
}

/// Offsets that strictly increase.
pub open spec fn increasing(rs: Seq<RecordView>) -> bool {
    forall|i: int, j: int| 0 <= i < j < rs.len() ==> rs[i].offset < rs[j].offset
}

/// The segment holds exactly the records `rs`: its log is their encoding,
/// its index records each of them, their offsets increase from the base,
/// and the next offset follows the last.
pub open spec fn holds(v: SegmentView, rs: Seq<RecordView>) -> bool {
    &&& v.log == log_of(rs)
    &&& v.log.len() <= u64::MAX
    &&& forall|i: int| 0 <= i < rs.len() ==> encodable(#[trigger] rs[i])
    &&& increasing(rs)
    &&& v.index == entries_for(rs)
    &&& rs.len() == 0 ==> v.next_offset == v.base_offset
    &&& rs.len() > 0 ==> v.base_offset <= rs[0].offset && v.next_offset == rs.last().offset + 1
}

pub proof fn lemma_record_bytes_len(r: RecordView)
    ensures
        record_bytes(r).len() == record_size(r),
{
}

/// The log of the first `j` records is the front of the whole log.
pub proof fn lemma_log_prefix(rs: Seq<RecordView>, j: int)
    requires
        0 <= j <= rs.len(),
    ensures
        log_of(rs.take(j)).len() <= log_of(rs).len(),
        log_of(rs).take(log_of(rs.take(j)).len() as int) == log_of(rs.take(j)),
    decreases rs.len(),
{
    reveal(log_of);
    if j == rs.len() {
        assert(rs.take(j) =~= rs);
        assert(log_of(rs).take(log_of(rs).len() as int) =~= log_of(rs));
    } else {
        let d = rs.drop_last();
        lemma_log_prefix(d, j);
        assert(d.take(j) =~= rs.take(j));
        let a = log_of(d);
        let b = record_bytes(rs.last());
        assert((a + b).take(log_of(rs.take(j)).len() as int) =~= a.take(
            log_of(rs.take(j)).len() as int,
        ));
    }
}

/// Record `i` sits right after the first `i` records.
pub proof fn lemma_pos_next(rs: Seq<RecordView>, i: int)
    requires
        0 <= i < rs.len(),
    ensures
        log_of(rs.take(i + 1)) == log_of(rs.take(i)) + record_bytes(rs[i]),
        pos_of(rs, i + 1) == pos_of(rs, i) + record_size(rs[i]),
{
    reveal(log_of);
    assert(rs.take(i + 1).drop_last() =~= rs.take(i));
    assert(rs.take(i + 1).last() == rs[i]);
    lemma_record_bytes_len(rs[i]);
}

/// From record `i` on, the log is record `i`'s encoding followed by the rest.
pub proof fn lemma_log_at(rs: Seq<RecordView>, i: int)
    requires
        0 <= i < rs.len(),
    ensures
        pos_of(rs, i + 1) <= log_of(rs).len(),
        log_of(rs).skip(pos_of(rs, i)) == record_bytes(rs[i]) + log_of(rs).skip(pos_of(rs, i + 1)),
{
    let l = log_of(rs);
    lemma_pos_next(rs, i);
    lemma_log_prefix(rs, i + 1);
    let p = pos_of(rs, i);
    let q = pos_of(rs, i + 1);
    assert(l.take(q) == log_of(rs.take(i)) + record_bytes(rs[i]));
    let b = record_bytes(rs[i]);
    lemma_record_bytes_len(rs[i]);
    assert(q - p == b.len());
    assert(log_of(rs.take(i)).len() == p);
    assert forall|k: int| 0 <= k < l.len() - p implies #[trigger] l.skip(p)[k] == (b + l.skip(q))[k] by {
        if k < q - p {
            assert(l[p + k] == l.take(q)[p + k]);
            assert(l.take(q)[p + k] == (log_of(rs.take(i)) + b)[p + k]);
        } else {
            assert(l.skip(q)[k - (q - p)] == l[p + k]);
        }
    }
    assert(l.skip(p) =~= b + l.skip(q));
}

pub proof fn lemma_pos_end(rs: Seq<RecordView>)
    ensures
        pos_of(rs, rs.len() as int) == log_of(rs).len(),
{
    assert(rs.take(rs.len() as int) =~= rs);
}

/// Positions grow with the record number.
pub proof fn lemma_pos_mono(rs: Seq<RecordView>, i: int, j: int)
    requires
        0 <= i <= j <= rs.len(),
    ensures
        pos_of(rs, i) <= pos_of(rs, j),
    decreases j - i,
{
    if i < j {
        lemma_pos_mono(rs, i, j - 1);
        lemma_pos_next(rs, j - 1);
    }
}

/// A freshly created segment holds no records.
pub proof fn law_create_holds(v: SegmentView)
    requires
        v.log.len() == 0,
        v.index.len() == 0,
        v.next_offset == v.base_offset,
    ensures
        holds(v, Seq::empty()),
{
    reveal(log_of);
    assert(v.log =~= log_of(Seq::<RecordView>::empty()));
    assert(v.index =~= entries_for(Seq::<RecordView>::empty()));
}

/// Appending a record at the next offset to a segment that holds `rs`
/// gives one that holds `rs` followed by that record.
pub proof fn law_append_holds(v: SegmentView, rs: Seq<RecordView>, r: RecordView)
    requires
        holds(v, rs),
        encodable(r),
        r.offset == v.next_offset,
        v.next_offset < u64::MAX,
        v.log.len() + record_size(r) <= u64::MAX,
    ensures
        holds(appended(v, r), rs.push(r)),
{
    reveal(log_of);
    let rs2 = rs.push(r);
    let v2 = appended(v, r);
    assert(rs2.drop_last() =~= rs);
    lemma_record_bytes_len(r);
    assert(v2.log == log_of(rs2));
    assert forall|i: int| 0 <= i < rs2.len() implies pos_of(rs2, i) == pos_of(rs, i) by {
        if i < rs.len() {
            assert(rs2.take(i) =~= rs.take(i));
        } else {
            assert(rs2.take(i) =~= rs);
            lemma_pos_end(rs);
        }
    }
    assert(v2.index =~= entries_for(rs2));
    if rs.len() > 0 {
        assert(increasing(rs2)) by {
            assert forall|i: int, j: int| 0 <= i < j < rs2.len() implies rs2[i].offset
                < rs2[j].offset by {
                if j == rs.len() && i < rs.len() - 1 {
                    assert(rs[i].offset < rs[rs.len() - 1].offset);
                }
            }
        }
    }
}

/// In a segment holding `rs`, the index finds record `i` at its position.
pub proof fn lemma_index_finds(v: SegmentView, rs: Seq<RecordView>, i: int)
    requires
        holds(v, rs),
        0 <= i < rs.len(),
    ensures
        index_find(v.index, rs[i].offset) == Some(pos_of(rs, i) as u64),
{
    let e = v.index;
    assert forall|k: int| 0 <= k < i implies e[k].offset != rs[i].offset by {
        assert(rs[k].offset < rs[i].offset);
    }
    lemma_find_first(e, rs[i].offset, 0, i);
}

/// In a log holding `rs`, record `i` decodes at its position.
pub proof fn lemma_decode_at(rs: Seq<RecordView>, i: int)
    requires
        0 <= i < rs.len(),
        forall|k: int| 0 <= k < rs.len() ==> encodable(#[trigger] rs[k]),
    ensures
        0 <= pos_of(rs, i),
        pos_of(rs, i) + record_size(rs[i]) <= log_of(rs).len(),
        pos_of(rs, i + 1) == pos_of(rs, i) + record_size(rs[i]),
        record_outcome(log_of(rs).skip(pos_of(rs, i))) == RecordOutcome::Decoded(
            rs[i],
            record_size(rs[i]),
        ),
        log_of(rs).skip(pos_of(rs, i)) == record_bytes(rs[i]) + log_of(rs).skip(pos_of(rs, i + 1)),
{
    lemma_log_at(rs, i);
    lemma_pos_next(rs, i);
    let r = rs[i];
    assert(encodable(r));
    law_record_round_trip(r, log_of(rs).skip(pos_of(rs, i + 1)));
}

/// In a segment holding `rs`, reading the offset of a record gives it back.
pub proof fn law_read_after_write(v: SegmentView, rs: Seq<RecordView>, i: int)
    requires
        holds(v, rs),
        0 <= i < rs.len(),
    ensures
        read_at_outcome(v, rs[i].offset) == ReadOutcome::Found(rs[i]),
{
    let r = rs[i];
    let o = r.offset;
    let l = v.log;
    assert(v.base_offset <= o && o < v.next_offset) by {
        if i > 0 {
            assert(rs[0].offset < o);
        }
        if i < rs.len() - 1 {
            assert(o < rs.last().offset);
        }
    }
    lemma_index_finds(v, rs, i);
    let p = pos_of(rs, i);
    let n = record_size(r);
    lemma_decode_at(rs, i);
    lemma_record_bytes_len(r);
    assert(read_at_outcome(v, o) == read_record_at(l, p, o));
    lemma_read_record_at(l, p, r, l.skip(pos_of(rs, i + 1)));
}

/// A whole encoded record at position `p` is what reading there gives.
pub proof fn lemma_read_record_at(l: Seq<u8>, p: int, r: RecordView, rest: Seq<u8>)
    requires
        0 <= p <= l.len(),
        encodable(r),
        l.skip(p) == record_bytes(r) + rest,
    ensures
        read_record_at(l, p, r.offset) == ReadOutcome::Found(r),
{
    let n = record_size(r);
    let t = l.skip(p);
    law_record_round_trip(r, rest);
    lemma_record_bytes_len(r);
    assert(record_outcome(t) == RecordOutcome::Decoded(r, n));
    lemma_record_layout(r);
    let b = record_bytes(r);
    assert(be32_at(t, 0) == n) by {
        assert(t[0] == b[0] && t[1] == b[1] && t[2] == b[2] && t[3] == b[3]);
    }
    let w = window(l, p, 4096);
    assert(w =~= t.take(w.len() as int));
    assert(t =~= w + t.skip(w.len() as int));
    assert(be32_at(w, 0) == be32_at(t, 0));
    if n <= w.len() {
        lemma_outcome_shrink(w, t.skip(w.len() as int));
    } else {
        assert(record_outcome(w) == RecordOutcome::Incomplete);
        assert(be32_at(l, p) == be32_at(t, 0));
        assert(l.subrange(p, p + n) =~= record_bytes(r));
        law_record_round_trip(r, Seq::empty());
        assert(record_bytes(r) + Seq::<u8>::empty() =~= record_bytes(r));
    }
}

/// In a segment holding `rs`, an offset no record has reads as missing.
pub proof fn law_read_missing(v: SegmentView, rs: Seq<RecordView>, o: u64)
    requires
        holds(v, rs),
        forall|i: int| 0 <= i < rs.len() ==> #[trigger] rs[i].offset != o,
    ensures
        read_at_outcome(v, o) == ReadOutcome::Missing,
{
    assert forall|k: int| 0 <= k < v.index.len() implies v.index[k].offset != o by {
        assert(v.index[k].offset == rs[k].offset);
    }
    lemma_find_none(v.index, o, 0);
}

} // verus!

verus! {

/// Scanning a log of encodable records from record `i` on decodes exactly
/// those records, reaches the end of the log, and never panics.
pub proof fn lemma_scan_log(rs: Seq<RecordView>, i: int)
    requires
        0 <= i <= rs.len(),
        forall|k: int| 0 <= k < rs.len() ==> encodable(#[trigger] rs[k]),
        forall|k: int| 0 <= k < rs.len() ==> #[trigger] rs[k].offset < u64::MAX,
    ensures
        scan_records(log_of(rs), pos_of(rs, i)) == Seq::new(
            (rs.len() - i) as nat,
            |k: int| (rs[i + k], pos_of(rs, i + k)),
        ),
        scan_end(log_of(rs), pos_of(rs, i)) == log_of(rs).len(),
        !load_panics(log_of(rs), pos_of(rs, i)),
    decreases rs.len() - i,
{
    let l = log_of(rs);
    let p = pos_of(rs, i);
    if i == rs.len() {
        lemma_pos_end(rs);
        assert(l.skip(p).len() == 0);
        assert(record_outcome(l.skip(p)) == RecordOutcome::Incomplete);
        assert(scan_records(l, p) =~= Seq::new(
            (rs.len() - i) as nat,
            |k: int| (rs[i + k], pos_of(rs, i + k)),
        ));
    } else {
        lemma_decode_at(rs, i);
        lemma_scan_log(rs, i + 1);
        assert(rs[i].offset < u64::MAX);
        let n = record_size(rs[i]);
        assert(scan_records(l, p) == seq![(rs[i], p)] + scan_records(l, p + n));
        assert(scan_records(l, p) =~= Seq::new(
            (rs.len() - i) as nat,
            |k: int| (rs[i + k], pos_of(rs, i + k)),
        ));
    }
}

/// A segment holding `rs` is rebuilt unchanged from its own log bytes,
/// with its own index entries or with none (the index is then rebuilt):
/// loading does not panic, keeps the whole log, finds the same next offset
/// and the same index.
pub proof fn law_reload(v: SegmentView, rs: Seq<RecordView>, index: Result<Index, RukaError>)
    requires
        holds(v, rs),
        read_entries(index) == v.index || read_entries(index).len() == 0,
    ensures
        !load_panics(v.log, 0),
        scan_end(v.log, 0) == v.log.len(),
        v.log.take(scan_end(v.log, 0)) == v.log,
        next_after(scan_records(v.log, 0), v.base_offset) == v.next_offset,
        loaded_index(index, v.log) == v.index,
        reloaded(v.base_offset, v.max_bytes, v.sync_level, v.log, index) == v,
{
    reveal(log_of);
    assert(rs.take(0) =~= Seq::<RecordView>::empty());
    assert(pos_of(rs, 0) == 0);
    assert forall|k: int| 0 <= k < rs.len() implies #[trigger] rs[k].offset < u64::MAX by {
        if k < rs.len() - 1 {
            assert(rs[k].offset < rs.last().offset);
        }
    }
    lemma_scan_log(rs, 0);
    let sc = scan_records(v.log, 0);
    assert(v.log.take(v.log.len() as int) =~= v.log);
    if rs.len() > 0 {
        assert(sc.last().0 == rs.last());
        lemma_pos_next(rs, rs.len() - 1);
        lemma_pos_end(rs);
        assert(v.log.len() > 0);
    } else {
        assert(v.index =~= Seq::<IndexEntry>::empty());
    }
    assert(scan_entries(sc) =~= entries_for(rs));
}

} // verus!

verus! {

/// The log of two runs of records is the log of the first, then the second.
pub proof fn lemma_log_concat(a: Seq<RecordView>, b: Seq<RecordView>)
    ensures
        log_of(a + b) == log_of(a) + log_of(b),
    decreases b.len(),
{
    reveal(log_of);
    if b.len() == 0 {
        assert(a + b =~= a);
        assert(log_of(a) + log_of(b) =~= log_of(a));
    } else {
        lemma_log_concat(a, b.drop_last());
        assert((a + b).drop_last() =~= a + b.drop_last());
        assert((a + b).last() == b.last());
        assert(log_of(a + b) =~= log_of(a) + log_of(b));
    }
}

/// Appending, in turn, records that carry the next offsets to a segment
/// holding `rs` gives one holding `rs` followed by them.
pub proof fn law_append_all_holds(v: SegmentView, rs: Seq<RecordView>, recs: Seq<RecordView>)
    requires
        holds(v, rs),
        forall|j: int| 0 <= j < recs.len() ==> encodable(#[trigger] recs[j]),
        forall|j: int| 0 <= j < recs.len() ==> #[trigger] recs[j].offset == v.next_offset + j,
        v.next_offset + recs.len() <= u64::MAX,
        v.log.len() + log_of(recs).len() <= u64::MAX,
    ensures
        holds(appended_all(v, recs), rs + recs),
        appended_all(v, recs).next_offset == v.next_offset + recs.len(),
        appended_all(v, recs).base_offset == v.base_offset,
        appended_all(v, recs).max_bytes == v.max_bytes,
        appended_all(v, recs).sync_level == v.sync_level,
    decreases recs.len(),
{
    reveal(log_of);
    if recs.len() == 0 {
        assert(rs + recs =~= rs);
    } else {
        let d = recs.drop_last();
        let r = recs.last();
        assert(log_of(recs) == log_of(d) + record_bytes(r));
        lemma_record_bytes_len(r);
        law_append_all_holds(v, rs, d);
        let v1 = appended_all(v, d);
        lemma_log_concat(rs, d);
        assert(v1.log.len() == v.log.len() + log_of(d).len());
        assert(r == recs[recs.len() - 1]);
        law_append_holds(v1, rs + d, r);
        assert((rs + d).push(r) =~= rs + recs);
    }
}

} // verus!

verus! {

/// How many records after the first a batch read keeps, given `total`
/// bytes kept so far and the budget `m`.
pub open spec fn batch_more(rs: Seq<RecordView>, m: int, total: int) -> nat
    decreases rs.len(),
{
    if rs.len() == 0 {
        0
    } else if total + record_size(rs[0]) > m {
        0
    } else {
        1 + batch_more(rs.drop_first(), m, total + record_size(rs[0]))
    }
}

/// How many records from the front of `rs` a batch read with budget `m`
/// returns: the first always, then each next one while the bytes kept stay
/// within the budget.
pub open spec fn batch_count(rs: Seq<RecordView>, m: int) -> nat {
    if rs.len() == 0 {
        0
    } else {
        1 + batch_more(rs.drop_first(), m, record_size(rs[0]) as int)
    }
}

/// A batch read keeps no more records than there are.
pub proof fn lemma_batch_more_len(rs: Seq<RecordView>, m: int, total: int)
    ensures
        batch_more(rs, m, total) <= rs.len(),
    decreases rs.len(),
{
    if rs.len() > 0 {
        lemma_batch_more_len(rs.drop_first(), m, total + record_size(rs[0]));
    }
}

proof fn lemma_batch_more_over(rs: Seq<RecordView>, m: int, total: int)
    requires
        total > m,
    ensures
        batch_more(rs, m, total) == 0,
{
}

/// One step of a batch read at window position `q`, where the rest of the
/// window is the front of an encoded record `r` and what follows it.
proof fn lemma_batch_step(
    w: Seq<u8>,
    q: int,
    o: u64,
    m: u32,
    acc: Seq<RecordView>,
    r: RecordView,
    t: Seq<u8>,
    rest: Seq<u8>,
)
    requires
        0 <= q <= w.len(),
        acc.len() > 0,
        encodable(r),
        t == record_bytes(r) + rest,
        w.len() - q <= t.len(),
        w.skip(q) == t.take(w.len() - q),
    ensures
        q + record_size(r) > m ==> batch_loop(w, q, o, m, q, acc) == (acc, false),
        (q + record_size(r) <= m && q + record_size(r) <= w.len() && r.offset >= o) ==> batch_loop(
            w,
            q,
            o,
            m,
            q,
            acc,
        ) == batch_loop(w, q + record_size(r), o, m, q + record_size(r), acc.push(r)),
{
    let n = record_size(r);
    let sw = w.skip(q);
    let b = record_bytes(r);
    lemma_record_layout(r);
    if sw.len() >= 4 {
        assert(be32_at(sw, 0) == n) by {
            assert(sw[0] == b[0] && sw[1] == b[1] && sw[2] == b[2] && sw[3] == b[3]);
        }
    }
    if q + n <= m && q + n <= w.len() && r.offset >= o {
        law_record_round_trip(r, rest);
        assert(t =~= sw + t.skip(sw.len() as int));
        lemma_outcome_shrink(sw, t.skip(sw.len() as int));
    }
}

/// A window's tail is the front of the log's tail.
proof fn lemma_window_skip(l: Seq<u8>, p: int, cap: int, q: int)
    requires
        0 <= cap,
        0 <= p <= l.len(),
        0 <= q <= window(l, p, cap).len(),
    ensures
        window(l, p, cap).len() <= l.len() - p,
        window(l, p, cap).skip(q) == l.skip(p + q).take(window(l, p, cap).len() - q),
{
    let w = window(l, p, cap);
    assert(w.skip(q) =~= l.skip(p + q).take(w.len() - q));
}

/// The records of a log holding `rs` as a batch read meets them: record `k`
/// begins the rest of the log.
proof fn lemma_batch_at(rs: Seq<RecordView>, i: int, k: int, w: Seq<u8>, cap: int)
    requires
        0 <= cap,
        forall|j: int| 0 <= j < rs.len() ==> encodable(#[trigger] rs[j]),
        0 <= i <= k < rs.len(),
        w == window(log_of(rs), pos_of(rs, i), cap),
        pos_of(rs, k) - pos_of(rs, i) <= w.len(),
    ensures
        pos_of(rs, k + 1) == pos_of(rs, k) + record_size(rs[k]),
        pos_of(rs, k + 1) <= log_of(rs).len(),
        log_of(rs).skip(pos_of(rs, k)) == record_bytes(rs[k]) + log_of(rs).skip(pos_of(rs, k + 1)),
        w.len() - (pos_of(rs, k) - pos_of(rs, i)) <= log_of(rs).skip(pos_of(rs, k)).len(),
        w.skip(pos_of(rs, k) - pos_of(rs, i)) == log_of(rs).skip(pos_of(rs, k)).take(
            w.len() - (pos_of(rs, k) - pos_of(rs, i)),
        ),
{
    let l = log_of(rs);
    let p = pos_of(rs, i);
    let q = pos_of(rs, k) - p;
    lemma_pos_mono(rs, i, k);
    lemma_decode_at(rs, k);
    lemma_decode_at(rs, i);
    lemma_window_skip(l, p, cap, q);
}

/// A batch read over a window of a log holding `rs`, once the records from
/// `i` up to `k` were kept.
#[verifier::spinoff_prover]
#[verifier::rlimit(60)]
proof fn lemma_batch_loop_from(rs: Seq<RecordView>, i: int, k: int, m: u32, w: Seq<u8>)
    requires
        forall|j: int| 0 <= j < rs.len() ==> encodable(#[trigger] rs[j]),
        increasing(rs),
        0 <= i < k <= rs.len(),
        k == i + 1 || pos_of(rs, k) - pos_of(rs, i) <= m,
        w == window(log_of(rs), pos_of(rs, i), batch_read_size(m)),
        pos_of(rs, k) - pos_of(rs, i) <= w.len(),
    ensures
        batch_loop(
            w,
            pos_of(rs, k) - pos_of(rs, i),
            rs[i].offset,
            m,
            pos_of(rs, k) - pos_of(rs, i),
            rs.subrange(i, k),
        ) == (
            rs.subrange(i, k + batch_more(rs.skip(k), m as int, pos_of(rs, k) - pos_of(rs, i))),
            false,
        ),
    decreases rs.len() - k,
{
    let l = log_of(rs);
    let p = pos_of(rs, i);
    let q = pos_of(rs, k) - p;
    let o = rs[i].offset;
    let acc = rs.subrange(i, k);
    lemma_pos_mono(rs, i, k);
    lemma_pos_end(rs);
    lemma_batch_more_len(rs.skip(k), m as int, q);
    if k == rs.len() {
        assert(w.len() <= l.len() - p);
        assert(w.len() == q);
        assert(rs.subrange(i, k + 0) =~= acc);
    } else {
        let r = rs[k];
        let n = record_size(r);
        lemma_batch_at(rs, i, k, w, batch_read_size(m));
        lemma_batch_step(w, q, o, m, acc, r, l.skip(pos_of(rs, k)), l.skip(pos_of(rs, k + 1)));
        assert(rs.skip(k)[0] == r);
        assert(rs.skip(k).drop_first() =~= rs.skip(k + 1));
        if q + n > m {
            assert(rs.subrange(i, k + 0) =~= acc);
        } else {
            lemma_pos_mono(rs, k + 1, rs.len() as int);
            assert(q + n <= w.len()) by {
                assert(w.len() == batch_read_size(m) || w.len() == l.len() - p);
            }
            assert(r.offset > o) by {
                assert(rs[i].offset < rs[k].offset);
            }
            assert(acc.push(r) =~= rs.subrange(i, k + 1));
            lemma_batch_loop_from(rs, i, k + 1, m, w);
        }
    }
}

/// The batch read over the window from record `i`'s position, in a log
/// holding `rs`.
#[verifier::spinoff_prover]
proof fn lemma_batch_window(rs: Seq<RecordView>, i: int, m: u32)
    requires
        forall|j: int| 0 <= j < rs.len() ==> encodable(#[trigger] rs[j]),
        increasing(rs),
        0 <= i < rs.len(),
    ensures
        ({
            let l = log_of(rs);
            let p = pos_of(rs, i);
            let w = window(l, p, batch_read_size(m));
            let first = batch_loop(w, 0, rs[i].offset, m, 0, Seq::empty());
            let expected = rs.subrange(i, i + batch_count(rs.skip(i), m as int));
            &&& !first.1
            &&& w.len() > 0
            &&& first.0.len() == 0 ==> batch_fallback(l, p, rs[i].offset) == (expected, false)
            &&& first.0.len() > 0 ==> first.0 == expected
        }),
{
    let l = log_of(rs);
    let r = rs[i];
    let o = r.offset;
    let n = record_size(r);
    let p = pos_of(rs, i);
    let cap = batch_read_size(m);
    let w = window(l, p, cap);
    lemma_batch_at(rs, i, i, w, cap);
    lemma_record_layout(r);
    let t = l.skip(p);
    let b = record_bytes(r);
    assert(w.skip(0) =~= w);
    assert(w.len() >= 4);
    assert(be32_at(w, 0) == n) by {
        assert(w[0] == b[0] && w[1] == b[1] && w[2] == b[2] && w[3] == b[3]);
    }
    assert(rs.skip(i)[0] == r);
    assert(rs.skip(i).drop_first() =~= rs.skip(i + 1));
    if n <= w.len() {
        law_record_round_trip(r, l.skip(pos_of(rs, i + 1)));
        assert(t =~= w + t.skip(w.len() as int));
        lemma_outcome_shrink(w, t.skip(w.len() as int));
        assert(Seq::<RecordView>::empty().push(r) =~= rs.subrange(i, i + 1));
        assert(record_outcome(w) == RecordOutcome::Decoded(r, n));
        assert(pos_of(rs, i + 1) - p == n);
        assert(batch_loop(w, 0, o, m, 0, Seq::empty()) == batch_loop(
            w,
            n as int,
            o,
            m,
            n as int,
            rs.subrange(i, i + 1),
        ));
        lemma_batch_loop_from(rs, i, i + 1, m, w);
        assert(batch_count(rs.skip(i), m as int) == 1 + batch_more(rs.skip(i + 1), m as int, n as int));
        lemma_batch_more_len(rs.skip(i + 1), m as int, n as int);
        assert(batch_loop(w, 0, o, m, 0, Seq::empty()).0.len() > 0);
    } else {
        assert(batch_loop(w, 0, o, m, 0, Seq::empty()) == (Seq::<RecordView>::empty(), false));
        assert(l.subrange(p, p + n) =~= b);
        law_record_round_trip(r, Seq::empty());
        assert(b + Seq::<u8>::empty() =~= b);
        assert(be32_at(l, p) == be32_at(w, 0));
        assert(batch_fallback(l, p, o) == (seq![r], false));
        lemma_batch_more_over(rs.skip(i + 1), m as int, n as int);
        assert(seq![r] =~= rs.subrange(i, i + 1));
        assert(batch_count(rs.skip(i), m as int) == 1);
        assert(rs.subrange(i, i + batch_count(rs.skip(i), m as int)) =~= seq![r]);
    }
}

/// In a segment holding `rs`, a batch read from the offset of record `i`
/// with budget `m` returns the records from `i` on that `batch_count`
/// counts, and does not panic.
pub proof fn law_read_batch(v: SegmentView, rs: Seq<RecordView>, i: int, m: u32)
    requires
        holds(v, rs),
        0 <= i < rs.len(),
    ensures
        read_batch_outcome(v, rs[i].offset, m) == (
            rs.subrange(i, i + batch_count(rs.skip(i), m as int)),
            false,
        ),
{
    let o = rs[i].offset;
    assert(v.base_offset <= o && o < v.next_offset) by {
        if i > 0 {
            assert(rs[0].offset < o);
        }
        if i < rs.len() - 1 {
            assert(o < rs.last().offset);
        }
    }
    lemma_index_finds(v, rs, i);
    lemma_batch_window(rs, i, m);
}


/// Record `i` of a log of records decodes where it starts, also when more
/// bytes follow the log.
#[verifier::spinoff_prover]
proof fn lemma_decode_before_tail(rs: Seq<RecordView>, tail: Seq<u8>, i: int)
    requires
        0 <= i < rs.len(),
        forall|k: int| 0 <= k < rs.len() ==> encodable(#[trigger] rs[k]),
    ensures
        pos_of(rs, i + 1) == pos_of(rs, i) + record_size(rs[i]),
        pos_of(rs, i + 1) <= log_of(rs).len(),
        record_size(rs[i]) > 0,
        record_outcome(log_of(rs).skip(pos_of(rs, i))) == RecordOutcome::Decoded(
            rs[i],
            record_size(rs[i]),
        ),
        record_outcome((log_of(rs) + tail).skip(pos_of(rs, i))) == RecordOutcome::Decoded(
            rs[i],
            record_size(rs[i]),
        ),
{
    lemma_decode_at(rs, i);
    let l = log_of(rs);
    let p = pos_of(rs, i);
    let x = l.skip(p);
    assert((l + tail).skip(p) =~= x + tail);
    lemma_outcome_extend(x, tail);
}

/// Scanning a log of records followed by bytes that hold no whole record,
/// and no key or value running past them, reads from record `i` on what
/// scanning the log alone reads, stops where those bytes begin, and does
/// not panic.
#[verifier::spinoff_prover]
pub proof fn lemma_scan_tail(rs: Seq<RecordView>, tail: Seq<u8>, i: int)
    requires
        0 <= i <= rs.len(),
        forall|k: int| 0 <= k < rs.len() ==> encodable(#[trigger] rs[k]),
        forall|k: int| 0 <= k < rs.len() ==> #[trigger] rs[k].offset < u64::MAX,
        !(record_outcome(tail) is Decoded),
        !(record_outcome(tail) is Malformed),
    ensures
        scan_records(log_of(rs) + tail, pos_of(rs, i)) == scan_records(log_of(rs), pos_of(rs, i)),
        scan_end(log_of(rs) + tail, pos_of(rs, i)) == log_of(rs).len(),
        !load_panics(log_of(rs) + tail, pos_of(rs, i)),
    decreases rs.len() - i,
{
    let l = log_of(rs);
    let t = l + tail;
    let p = pos_of(rs, i);
    if i == rs.len() {
        lemma_pos_end(rs);
        lemma_scan_log(rs, i);
        assert(t.skip(p) =~= tail);
    } else {
        lemma_decode_before_tail(rs, tail, i);
        lemma_scan_tail(rs, tail, i + 1);
        assert(rs[i].offset < u64::MAX);
    }
}

/// The first `k` bytes of a record, short of all of them, decode as an
/// incomplete record.
pub proof fn lemma_partial_record(r: RecordView, k: int)
    requires
        encodable(r),
        0 <= k < record_size(r),
    ensures
        record_outcome(record_bytes(r).take(k)) is Incomplete,
{
    lemma_record_layout(r);
    let b = record_bytes(r);
    let t = b.take(k);
    if k >= 4 {
        assert(be32_at(t, 0) == be32_at(b, 0));
    }
}

} // verus!
