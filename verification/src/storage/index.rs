//! The offset index of a segment.
//!
//! Each entry is 16 bytes: `[MessageOffset: 8B][PhysicalPosition: 8B]`,
//! big-endian. The entries are held in memory for lookups; the index file
//! holds the same bytes for recovery.
use vstd::prelude::*;
use crate::error::RukaError;
use crate::wire::{be64_at, get_u64, lemma_be64_bytes, lemma_u64_be, u64_be};

verus! {

/// Size of a single index entry in bytes: offset(8) + position(8).
pub const INDEX_ENTRY_SIZE: usize = 16;

/// Maps a logical message offset to the byte position of its record in the
/// segment's log.
#[derive(Debug, Clone, Copy, PartialEq, Eq, Structural)]
pub struct IndexEntry {
    /// The logical message offset.
    pub offset: u64,
    /// The byte position in the log where the record starts.
    pub position: u64,
}

/// The 16 bytes of an entry.
pub open spec fn entry_bytes(e: IndexEntry) -> Seq<u8> {
    u64_be(e.offset) + u64_be(e.position)
}

/// The entry stored in `b[i..i + 16]`.
pub open spec fn entry_at(b: Seq<u8>, i: int) -> IndexEntry {
    IndexEntry { offset: be64_at(b, i), position: be64_at(b, i + 8) }
}

impl IndexEntry {
    /// Serialize this entry to 16 big-endian bytes.
    pub fn encode(&self) -> (r: [u8; INDEX_ENTRY_SIZE])
        ensures
            r@ == entry_bytes(*self),
    {
        let o = self.offset;
        let p = self.position;
        let r: [u8; INDEX_ENTRY_SIZE] = [
            (o >> 56u64) as u8,
            (o >> 48u64) as u8,
            (o >> 40u64) as u8,
            (o >> 32u64) as u8,
            (o >> 24u64) as u8,
            (o >> 16u64) as u8,
            (o >> 8u64) as u8,
            o as u8,
            (p >> 56u64) as u8,
            (p >> 48u64) as u8,
            (p >> 40u64) as u8,
            (p >> 32u64) as u8,
            (p >> 24u64) as u8,
            (p >> 16u64) as u8,
            (p >> 8u64) as u8,
            p as u8,
        ];
        proof {
            assert(r@ =~= entry_bytes(*self));
        }
        r
    }

    /// Deserialize an entry from 16 big-endian bytes.
    pub fn decode(buf: &[u8; INDEX_ENTRY_SIZE]) -> (r: IndexEntry)
        ensures
            r == entry_at(buf@, 0),
    {
        let s = buf.as_slice();
        IndexEntry { offset: get_u64(s, 0), position: get_u64(s, 8) }
    }
}

/// Decoding an encoded entry gives it back.
pub proof fn law_entry_round_trip(e: IndexEntry)
    ensures
        entry_at(entry_bytes(e), 0) == e,
{
    let b = entry_bytes(e);
    lemma_u64_be(e.offset);
    lemma_u64_be(e.position);
    assert(b.subrange(0, 8) =~= u64_be(e.offset));
    assert(b.subrange(8, 16) =~= u64_be(e.position));
    crate::wire::lemma_be64_at(b, 0, e.offset);
    crate::wire::lemma_be64_at(b, 8, e.position);
}

/// Encoding a decoded entry gives back the 16 bytes it came from.
pub proof fn law_entry_bytes_round_trip(b: Seq<u8>)
    requires
        b.len() == INDEX_ENTRY_SIZE,
    ensures
        entry_bytes(entry_at(b, 0)) == b,
{
    lemma_be64_bytes(b[0], b[1], b[2], b[3], b[4], b[5], b[6], b[7]);
    lemma_be64_bytes(b[8], b[9], b[10], b[11], b[12], b[13], b[14], b[15]);
    assert(entry_bytes(entry_at(b, 0)) =~= b);
}

/// Entries whose offsets strictly increase.
pub open spec fn strictly_sorted(e: Seq<IndexEntry>) -> bool {
    forall|i: int, j: int| 0 <= i < j < e.len() ==> e[i].offset < e[j].offset
}

/// The position recorded for `t` by the first entry from `i` on whose offset is `t`.
pub open spec fn find_from(e: Seq<IndexEntry>, t: u64, i: int) -> Option<u64>
    decreases e.len() - i,
{
    if i < 0 || i >= e.len() {
        None
    } else if e[i].offset == t {
        Some(e[i].position)
    } else {
        find_from(e, t, i + 1)
    }
}

/// The position recorded for offset `t`, if some entry records it.
pub open spec fn index_find(e: Seq<IndexEntry>, t: u64) -> Option<u64> {
    find_from(e, t, 0)
}

/// Of two candidates, the one with the larger offset; the first on a tie.
pub open spec fn better(a: Option<IndexEntry>, b: Option<IndexEntry>) -> Option<IndexEntry> {
    match (a, b) {
        (None, x) => x,
        (x, None) => x,
        (Some(x), Some(y)) => if y.offset > x.offset {
            Some(y)
        } else {
            Some(x)
        },
    }
}

/// Among the entries from `i` on, the one with the largest offset not above `t`.
pub open spec fn floor_from(e: Seq<IndexEntry>, t: u64, i: int) -> Option<IndexEntry>
    decreases e.len() - i,
{
    if i < 0 || i >= e.len() {
        None
    } else {
        better(
            if e[i].offset <= t {
                Some(e[i])
            } else {
                None
            },
            floor_from(e, t, i + 1),
        )
    }
}

/// The entry with the largest offset not above `t` (the first such on a tie).
pub open spec fn index_floor(e: Seq<IndexEntry>, t: u64) -> Option<IndexEntry> {
    floor_from(e, t, 0)
}

/// The entries that `bytes` holds, 16 bytes each.
pub open spec fn entries_of(bytes: Seq<u8>) -> Seq<IndexEntry> {
    Seq::new(bytes.len() / 16, |i: int| entry_at(bytes, 16 * i))
}

pub proof fn lemma_find_none(e: Seq<IndexEntry>, t: u64, i: int)
    requires
        0 <= i,
        forall|k: int| i <= k < e.len() ==> e[k].offset != t,
    ensures
        find_from(e, t, i) == None::<u64>,
    decreases e.len() - i,
{
    if i < e.len() {
        lemma_find_none(e, t, i + 1);
    }
}

pub proof fn lemma_find_first(e: Seq<IndexEntry>, t: u64, i: int, j: int)
    requires
        0 <= i <= j < e.len(),
        e[j].offset == t,
        forall|k: int| i <= k < j ==> e[k].offset != t,
    ensures
        find_from(e, t, i) == Some(e[j].position),
    decreases j - i,
{
    if i < j {
        lemma_find_first(e, t, i + 1, j);
    }
}

proof fn lemma_floor_none(e: Seq<IndexEntry>, t: u64, i: int)
    requires
        0 <= i,
        forall|k: int| i <= k < e.len() ==> e[k].offset > t,
    ensures
        floor_from(e, t, i) == None::<IndexEntry>,
    decreases e.len() - i,
{
    if i < e.len() {
        lemma_floor_none(e, t, i + 1);
    }
}

proof fn lemma_floor_sorted(e: Seq<IndexEntry>, t: u64, i: int, k: int)
    requires
        strictly_sorted(e),
        0 <= i <= k < e.len(),
        e[k].offset <= t,
        forall|m: int| k < m < e.len() ==> e[m].offset > t,
    ensures
        floor_from(e, t, i) == Some(e[k]),
    decreases k - i,
{
    if i < k {
        lemma_floor_sorted(e, t, i + 1, k);
    } else {
        lemma_floor_none(e, t, k + 1);
    }
}

/// A segment's offset index, kept in memory.
pub struct Index {
    entries: Vec<IndexEntry>,
    sorted: bool,
}

impl View for Index {
    type V = Seq<IndexEntry>;

    closed spec fn view(&self) -> Seq<IndexEntry> {
        self.entries@
    }
}

impl Index {
    #[verifier::type_invariant]
    closed spec fn sorted_flag(&self) -> bool {
        self.sorted == strictly_sorted(self.entries@)
    }

    /// A new, empty index.
    pub fn create() -> (r: Index)
        ensures
            r@ == Seq::<IndexEntry>::empty(),
    {
        Index { entries: Vec::new(), sorted: true }
    }

    /// Read an index from the bytes of its file.
    ///
    /// A length that is not a whole number of entries is `CorruptedIndex`
    /// carrying that length.
    pub fn load(bytes: &[u8]) -> (r: Result<Index, RukaError>)
        ensures
            bytes@.len() % 16 == 0 ==> (r matches Ok(idx) && idx@ == entries_of(bytes@)),
            bytes@.len() % 16 != 0 ==> (r matches Err(RukaError::CorruptedIndex(n)) && n
                == bytes@.len()),
    {
        let len = bytes.len();
        if len % INDEX_ENTRY_SIZE != 0 {
            return Err(RukaError::CorruptedIndex(len as u64));
        }
        let count = len / INDEX_ENTRY_SIZE;
        let mut idx = Index::create();
        let mut i: usize = 0;
        while i < count
            invariant
                count == len / 16,
                len == bytes@.len(),
                len % 16 == 0,
                i <= count,
                idx@ =~= entries_of(bytes@).take(i as int),
            decreases count - i,
        {
            assert(16 * i + 16 <= len) by (nonlinear_arith)
                requires
                    i < count,
                    count == len / 16,
                    len % 16 == 0,
            ;
            let offset = get_u64(bytes, 16 * i);
            let position = get_u64(bytes, 16 * i + 8);
            idx.append(offset, position);
            proof {
                assert(idx@ =~= entries_of(bytes@).take(i + 1));
            }
            i = i + 1;
        }
        proof {
            assert(entries_of(bytes@).take(count as int) =~= entries_of(bytes@));
        }
        Ok(idx)
    }

    /// Add an entry mapping `offset` to `position` at the end.
    pub fn append(&mut self, offset: u64, position: u64)
        ensures
            final(self)@ == old(self)@.push(IndexEntry { offset, position }),
    {
        proof {
            use_type_invariant(&*self);
        }
        let e = IndexEntry { offset, position };
        let n = self.entries.len();
        let keeps_order = n == 0 || self.entries[n - 1].offset < offset;
        proof {
            lemma_sorted_push(self.entries@, e);
        }
        let sorted = self.sorted && keeps_order;
        let mut taken = Index::create();
        std::mem::swap(&mut taken, self);
        let Index { mut entries, sorted: _ } = taken;
        entries.push(e);
        *self = Index { entries, sorted };
    }

    /// The position recorded for exactly `target_offset`, if any.
    ///
    /// A binary search when the offsets are strictly increasing, as an index
    /// written by a segment always is; otherwise the first matching entry.
    pub fn lookup(&self, target_offset: u64) -> (r: Option<u64>)
        ensures
            r == index_find(self@, target_offset),
    {
        proof {
            use_type_invariant(self);
        }
        let n = self.entries.len();
        if self.sorted {
            let mut lo: usize = 0;
            let mut hi: usize = n;
            while lo < hi
                invariant
                    0 <= lo <= hi <= n == self.entries@.len(),
                    strictly_sorted(self.entries@),
                    forall|k: int| 0 <= k < lo ==> self.entries@[k].offset < target_offset,
                    forall|k: int| hi <= k < n ==> self.entries@[k].offset > target_offset,
                decreases hi - lo,
            {
                let mid = lo + (hi - lo) / 2;
                let e = self.entries[mid];
                if e.offset == target_offset {
                    proof {
                        lemma_find_first(self.entries@, target_offset, 0, mid as int);
                    }
                    return Some(e.position);
                } else if e.offset < target_offset {
                    lo = mid + 1;
                } else {
                    hi = mid;
                }
            }
            proof {
                lemma_find_none(self.entries@, target_offset, 0);
            }
            None
        } else {
            let mut i: usize = 0;
            while i < n
                invariant
                    i <= n == self.entries@.len(),
                    index_find(self.entries@, target_offset) == find_from(
                        self.entries@,
                        target_offset,
                        i as int,
                    ),
                decreases n - i,
            {
                if self.entries[i].offset == target_offset {
                    return Some(self.entries[i].position);
                }
                i = i + 1;
            }
            None
        }
    }

    /// The entry with the largest offset not above `target_offset`, if any.
    pub fn lookup_floor(&self, target_offset: u64) -> (r: Option<IndexEntry>)
        ensures
            r == index_floor(self@, target_offset),
    {
        proof {
            use_type_invariant(self);
        }
        let n = self.entries.len();
        if self.sorted {
            let mut lo: usize = 0;
            let mut hi: usize = n;
            while lo < hi
                invariant
                    0 <= lo <= hi <= n == self.entries@.len(),
                    strictly_sorted(self.entries@),
                    forall|k: int| 0 <= k < lo ==> self.entries@[k].offset < target_offset,
                    forall|k: int| hi <= k < n ==> self.entries@[k].offset > target_offset,
                decreases hi - lo,
            {
                let mid = lo + (hi - lo) / 2;
                let e = self.entries[mid];
                if e.offset == target_offset {
                    proof {
                        lemma_floor_sorted(self.entries@, target_offset, 0, mid as int);
                    }
                    return Some(e);
                } else if e.offset < target_offset {
                    lo = mid + 1;
                } else {
                    hi = mid;
                }
            }
            if lo == 0 {
                proof {
                    lemma_floor_none(self.entries@, target_offset, 0);
                }
                None
            } else {
                proof {
                    lemma_floor_sorted(self.entries@, target_offset, 0, lo - 1);
                }
                Some(self.entries[lo - 1])
            }
        } else {
            let mut best: Option<IndexEntry> = None;
            let mut i: usize = n;
            while i > 0
                invariant
                    i <= n == self.entries@.len(),
                    best == floor_from(self.entries@, target_offset, i as int),
                decreases i,
            {
                i = i - 1;
                let e = self.entries[i];
                let cand = if e.offset <= target_offset {
                    Some(e)
                } else {
                    None
                };
                best = match (cand, best) {
                    (None, x) => x,
                    (x, None) => x,
                    (Some(x), Some(y)) => if y.offset > x.offset {
                        Some(y)
                    } else {
                        Some(x)
                    },
                };
            }
            best
        }
    }

    /// Number of entries held.
    pub fn entry_count(&self) -> (r: usize)
        ensures
            r == self@.len(),
    {
        self.entries.len()
    }

    /// Read-only access to the entries.
    pub fn entries(&self) -> (r: &[IndexEntry])
        ensures
            r@ == self@,
    {
        self.entries.as_slice()
    }
}

/// Adding an entry keeps the offsets strictly increasing exactly when it
/// comes after the last one.
proof fn lemma_sorted_push(es: Seq<IndexEntry>, e: IndexEntry)
    ensures
        strictly_sorted(es.push(e)) == (strictly_sorted(es) && (es.len() == 0 || es.last().offset
            < e.offset)),
{
    let s = es.push(e);
    if strictly_sorted(es) && (es.len() == 0 || es.last().offset < e.offset) {
        assert forall|i: int, j: int| 0 <= i < j < s.len() implies s[i].offset < s[j].offset by {
            if j == es.len() && i < es.len() - 1 {
                assert(es[i].offset < es[es.len() - 1].offset);
            }
        }
    }
    if strictly_sorted(s) {
        assert forall|i: int, j: int| 0 <= i < j < es.len() implies es[i].offset < es[j].offset by {
            assert(s[i] == es[i] && s[j] == es[j]);
        }
        if es.len() > 0 {
            assert(s[es.len() - 1] == es.last());
            assert(s[es.len() as int] == e);
        }
    }
}

} // verus!
