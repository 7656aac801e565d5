//! The on-disk record format of segment logs.
//!
//! Each record is `[RecordLength: 4B][Offset: 8B][TimestampMs: 8B][KeyLength: 4B][Key: VarB]
//! [ValueLength: 4B][Value: VarB]`, big-endian. `RecordLength` counts the
//! whole record, itself included. A key or value length of `u32::MAX` means
//! the field is absent; `0` means present and empty.
use vstd::prelude::*;
use crate::error::RukaError;
use crate::wire::{
    be32_at, be64_at, copy_range, get_u32, get_u64, lemma_be32_at, lemma_be64_at, lemma_sub_left,
    lemma_sub_right, lemma_u32_be, lemma_u64_be, put_slice, put_u32, put_u64, u32_be, u64_be,
};

verus! {

/// A record as stored in a segment log.
#[derive(Debug, Clone, PartialEq, Eq)]
pub struct Record {
    pub offset: u64,
    pub timestamp_ms: u64,
    pub key: Option<Vec<u8>>,
    pub value: Option<Vec<u8>>,
}

/// The mathematical content of a record.
pub struct RecordView {
    pub offset: u64,
    pub timestamp_ms: u64,
    pub key: Option<Seq<u8>>,
    pub value: Option<Seq<u8>>,
}

/// The contents of an optional byte vector.
pub open spec fn opt_view(o: Option<Vec<u8>>) -> Option<Seq<u8>> {
    match o {
        Some(v) => Some(v@),
        None => None,
    }
}

impl View for Record {
    type V = RecordView;

    open spec fn view(&self) -> RecordView {
        RecordView {
            offset: self.offset,
            timestamp_ms: self.timestamp_ms,
            key: opt_view(self.key),
            value: opt_view(self.value),
        }
    }
}

/// Length of an optional field's bytes (0 when absent).
pub open spec fn opt_len(o: Option<Seq<u8>>) -> nat {
    match o {
        Some(k) => k.len(),
        None => 0,
    }
}

/// The full encoded length of a record: 28 bytes of fixed fields plus key and value.
pub open spec fn record_size(r: RecordView) -> nat {
    28 + opt_len(r.key) + opt_len(r.value)
}

/// An optional field: its length then its bytes, or `u32::MAX` when absent.
pub open spec fn opt_bytes(o: Option<Seq<u8>>) -> Seq<u8> {
    match o {
        Some(k) => u32_be(k.len() as u32) + k,
        None => u32_be(u32::MAX),
    }
}

/// The encoding of a record; lengths are written truncated to 4 bytes.
pub open spec fn record_bytes(r: RecordView) -> Seq<u8> {
    u32_be(record_size(r) as u32) + u64_be(r.offset) + u64_be(r.timestamp_ms) + opt_bytes(r.key)
        + opt_bytes(r.value)
}

/// Records whose encoding reads back as themselves: the whole record fits
/// the 4-byte length field.
pub open spec fn encodable(r: RecordView) -> bool {
    record_size(r) <= u32::MAX
}

/// What decoding makes of the front of a buffer.
pub enum RecordOutcome {
    /// Fewer bytes than the record length claims.
    Incomplete,
    /// A record length below the 28 bytes of fixed fields.
    TooSmall,
    /// A key or value length that runs past the buffer.
    Malformed,
    /// A record, and how many bytes its fields took.
    Decoded(RecordView, nat),
}

/// The record's value field, read after the key ended at `p`.
pub open spec fn value_outcome(s: Seq<u8>, key: Option<Seq<u8>>, p: int) -> RecordOutcome {
    if p + 4 > s.len() {
        RecordOutcome::Malformed
    } else {
        let vl = be32_at(s, p);
        let r = |value: Option<Seq<u8>>|
            RecordView {
                offset: be64_at(s, 4),
                timestamp_ms: be64_at(s, 12),
                key,
                value,
            };
        if vl == u32::MAX {
            RecordOutcome::Decoded(r(None), (p + 4) as nat)
        } else if p + 4 + vl > s.len() {
            RecordOutcome::Malformed
        } else {
            RecordOutcome::Decoded(r(Some(s.subrange(p + 4, p + 4 + vl))), (p + 4 + vl) as nat)
        }
    }
}

/// How `Record::decode` reads the front of `s`.
pub open spec fn record_outcome(s: Seq<u8>) -> RecordOutcome {
    if s.len() < 4 {
        RecordOutcome::Incomplete
    } else if be32_at(s, 0) < 28 {
        RecordOutcome::TooSmall
    } else if s.len() < be32_at(s, 0) {
        RecordOutcome::Incomplete
    } else {
        let kl = be32_at(s, 20);
        if kl == u32::MAX {
            value_outcome(s, None, 24)
        } else if 24 + kl > s.len() {
            RecordOutcome::Malformed
        } else {
            value_outcome(s, Some(s.subrange(24, 24 + kl)), 24 + kl)
        }
    }
}

/// The exec counterpart of `RecordOutcome`.
pub enum RecordParse {
    Incomplete,
    TooSmall,
    Malformed,
    Decoded(Record, usize),
}

/// Whether an exec parse result matches the spec outcome.
pub open spec fn parse_matches(p: RecordParse, o: RecordOutcome) -> bool {
    match o {
        RecordOutcome::Incomplete => p is Incomplete,
        RecordOutcome::TooSmall => p is TooSmall,
        RecordOutcome::Malformed => p is Malformed,
        RecordOutcome::Decoded(v, n) => p matches RecordParse::Decoded(r, m) && r@ == v && m == n,
    }
}

/// Read the record at the front of `s.skip(start)` without panicking.
pub fn parse_record(s: &[u8], start: usize) -> (r: RecordParse)
    requires
        start <= s@.len(),
    ensures
        parse_matches(r, record_outcome(s@.skip(start as int))),
{
    let ghost t = s@.skip(start as int);
    let len = s.len() - start;
    if len < 4 {
        return RecordParse::Incomplete;
    }
    proof {
        assert(be32_at(t, 0) == be32_at(s@, start as int));
    }
    let record_len = get_u32(s, start) as usize;
    if record_len < 28 {
        return RecordParse::TooSmall;
    }
    if len < record_len {
        return RecordParse::Incomplete;
    }
    proof {
        assert(be32_at(t, 20) == be32_at(s@, start + 20));
        assert(be64_at(t, 4) == be64_at(s@, start + 4));
        assert(be64_at(t, 12) == be64_at(s@, start + 12));
    }
    let offset = get_u64(s, start + 4);
    let timestamp_ms = get_u64(s, start + 12);
    let key_len = get_u32(s, start + 20);
    let mut p: usize = 24;
    let key = if key_len == u32::MAX {
        None
    } else {
        let kl = key_len as usize;
        if kl > len - 24 {
            return RecordParse::Malformed;
        }
        let k = copy_range(s, start + 24, start + 24 + kl);
        proof {
            assert(k@ =~= t.subrange(24, 24 + kl));
        }
        p = 24 + kl;
        Some(k)
    };
    if len - p < 4 {
        return RecordParse::Malformed;
    }
    let val_len = get_u32(s, start + p);
    proof {
        assert(be32_at(t, p as int) == be32_at(s@, start + p));
    }
    let value = if val_len == u32::MAX {
        p = p + 4;
        None
    } else {
        let vl = val_len as usize;
        if vl > len - p - 4 {
            return RecordParse::Malformed;
        }
        let v = copy_range(s, start + p + 4, start + p + 4 + vl);
        proof {
            assert(v@ =~= t.subrange(p + 4, p + 4 + vl));
        }
        p = p + 4 + vl;
        Some(v)
    };
    RecordParse::Decoded(Record { offset, timestamp_ms, key, value }, p)
}

impl Record {
    /// Append the encoding of this record to `dst`.
    pub fn encode(&self, dst: &mut Vec<u8>)
        requires
            record_size(self@) <= usize::MAX,
        ensures
            final(dst)@ == old(dst)@ + record_bytes(self@),
    {
        let key_len: usize = match &self.key {
            Some(k) => k.len(),
            None => 0,
        };
        let val_len: usize = match &self.value {
            Some(v) => v.len(),
            None => 0,
        };
        let record_len: usize = 4 + 8 + 8 + 4 + key_len + 4 + val_len;
        put_u32(dst, record_len as u32);
        put_u64(dst, self.offset);
        put_u64(dst, self.timestamp_ms);
        match &self.key {
            Some(k) => {
                put_u32(dst, k.len() as u32);
                put_slice(dst, k.as_slice());
            },
            None => {
                put_u32(dst, u32::MAX);
            },
        }
        match &self.value {
            Some(v) => {
                put_u32(dst, v.len() as u32);
                put_slice(dst, v.as_slice());
            },
            None => {
                put_u32(dst, u32::MAX);
            },
        }
        proof {
            assert(dst@ =~= old(dst)@ + record_bytes(self@));
        }
    }

    /// Decode a record from the front of `src`, taking its bytes off.
    ///
    /// Returns `Ok(None)` and leaves `src` unchanged while bytes are missing:
    /// the record is incomplete, or its key or value runs past the length it
    /// declares. A record length under 28 is an error.
    pub fn decode(src: &mut Vec<u8>) -> (r: Result<Option<Record>, RukaError>)
        ensures
            match record_outcome(old(src)@) {
                RecordOutcome::Incomplete => r matches Ok(None) && final(src)@ == old(src)@,
                RecordOutcome::TooSmall => r matches Err(RukaError::InvalidFrame(m)) && m@
                    == "Record length too small"@ && final(src)@ == old(src)@,
                RecordOutcome::Malformed => r matches Ok(None) && final(src)@ == old(src)@,
                RecordOutcome::Decoded(v, n) => r matches Ok(Some(rec)) && rec@ == v
                    && final(src)@ == old(src)@.skip(n as int),
            },
    {
        proof {
            assert(src@.skip(0) =~= src@);
        }
        match parse_record(src.as_slice(), 0) {
            RecordParse::Incomplete => Ok(None),
            RecordParse::TooSmall => Err(RukaError::InvalidFrame("Record length too small".to_string())),
            RecordParse::Malformed => Ok(None),
            RecordParse::Decoded(rec, n) => {
                let len = src.len();
                let rest = copy_range(src.as_slice(), n, len);
                proof {
                    assert(rest@ =~= old(src)@.skip(n as int));
                }
                *src = rest;
                Ok(Some(rec))
            },
        }
    }
}

/// A decoded record stays decoded when more bytes follow.
pub proof fn lemma_outcome_extend(s: Seq<u8>, x: Seq<u8>)
    requires
        record_outcome(s) is Decoded,
    ensures
        record_outcome(s + x) == record_outcome(s),
{
    let t = s + x;
    assert(s.len() >= 28);
    assert forall|i: int| 0 <= i < s.len() implies t[i] == s[i] by {}
    assert(be32_at(t, 0) == be32_at(s, 0));
    assert(be32_at(t, 20) == be32_at(s, 20));
    assert(be64_at(t, 4) == be64_at(s, 4));
    assert(be64_at(t, 12) == be64_at(s, 12));
    let kl = be32_at(s, 20);
    let p: int = if kl == u32::MAX { 24 } else { 24 + kl };
    if kl != u32::MAX {
        assert(t.subrange(24, 24 + kl) =~= s.subrange(24, 24 + kl));
    }
    assert(be32_at(t, p) == be32_at(s, p));
    let vl = be32_at(s, p);
    if vl != u32::MAX {
        assert(t.subrange(p + 4, p + 4 + vl) =~= s.subrange(p + 4, p + 4 + vl));
    }
}

/// A record decoded from a longer buffer is decoded from any front part
/// that holds both its fields and its declared length.
pub proof fn lemma_outcome_shrink(s: Seq<u8>, x: Seq<u8>)
    requires
        record_outcome(s + x) matches RecordOutcome::Decoded(_, n) && n <= s.len(),
        s.len() >= 4,
        be32_at(s, 0) <= s.len(),
    ensures
        record_outcome(s) == record_outcome(s + x),
{
    let t = s + x;
    assert(be32_at(t, 0) == be32_at(s, 0));
    assert(s.len() >= 28);
    assert(be32_at(t, 20) == be32_at(s, 20));
    assert(be64_at(t, 4) == be64_at(s, 4));
    assert(be64_at(t, 12) == be64_at(s, 12));
    let kl = be32_at(s, 20);
    let p: int = if kl == u32::MAX { 24 } else { 24 + kl };
    if kl != u32::MAX {
        assert(t.subrange(24, 24 + kl) =~= s.subrange(24, 24 + kl));
    }
    assert(be32_at(t, p) == be32_at(s, p));
    let vl = be32_at(s, p);
    if vl != u32::MAX {
        assert(t.subrange(p + 4, p + 4 + vl) =~= s.subrange(p + 4, p + 4 + vl));
    }
}

/// Where each field of an encoded record sits.
pub proof fn lemma_record_layout(r: RecordView)
    requires
        encodable(r),
    ensures
        ({
            let s = record_bytes(r);
            &&& s.len() == record_size(r)
            &&& be32_at(s, 0) == record_size(r)
            &&& be64_at(s, 4) == r.offset
            &&& be64_at(s, 12) == r.timestamp_ms
            &&& s.subrange(20, 24 + opt_len(r.key) as int) == opt_bytes(r.key)
            &&& s.subrange(24 + opt_len(r.key) as int, s.len() as int) == opt_bytes(r.value)
        }),
{
    let p1 = u32_be(record_size(r) as u32);
    let p2 = p1 + u64_be(r.offset);
    let p3 = p2 + u64_be(r.timestamp_ms);
    let p4 = p3 + opt_bytes(r.key);
    let s = p4 + opt_bytes(r.value);
    lemma_u32_be(record_size(r) as u32);
    lemma_u64_be(r.offset);
    lemma_u64_be(r.timestamp_ms);
    lemma_u32_be(u32::MAX);
    match r.key {
        Some(k) => lemma_u32_be(k.len() as u32),
        None => {},
    }
    match r.value {
        Some(v) => lemma_u32_be(v.len() as u32),
        None => {},
    }
    assert(opt_bytes(r.key).len() == 4 + opt_len(r.key));
    assert(opt_bytes(r.value).len() == 4 + opt_len(r.value));
    assert(s.len() == record_size(r));
    assert(p1.subrange(0, 4) =~= p1);
    lemma_sub_left(p1, u64_be(r.offset), 0, 4);
    lemma_sub_left(p2, u64_be(r.timestamp_ms), 0, 4);
    lemma_sub_left(p3, opt_bytes(r.key), 0, 4);
    lemma_sub_left(p4, opt_bytes(r.value), 0, 4);
    lemma_be32_at(s, 0, record_size(r) as u32);
    lemma_sub_right(p1, u64_be(r.offset));
    lemma_sub_left(p3, opt_bytes(r.key), 4, 12);
    lemma_sub_left(p4, opt_bytes(r.value), 4, 12);
    lemma_sub_left(p2, u64_be(r.timestamp_ms), 4, 12);
    lemma_be64_at(s, 4, r.offset);
    lemma_sub_right(p2, u64_be(r.timestamp_ms));
    lemma_sub_left(p3, opt_bytes(r.key), 12, 20);
    lemma_sub_left(p4, opt_bytes(r.value), 12, 20);
    lemma_be64_at(s, 12, r.timestamp_ms);
    lemma_sub_right(p3, opt_bytes(r.key));
    lemma_sub_left(p4, opt_bytes(r.value), 20, 24 + opt_len(r.key) as int);
    lemma_sub_right(p4, opt_bytes(r.value));
}

/// An encodable record decodes from its own encoding, whatever follows.
pub proof fn law_record_round_trip(r: RecordView, rest: Seq<u8>)
    requires
        encodable(r),
    ensures
        record_outcome(record_bytes(r) + rest) == RecordOutcome::Decoded(r, record_size(r)),
{
    let s = record_bytes(r);
    lemma_record_layout(r);
    let kl = opt_len(r.key) as int;
    let kb = s.subrange(20, 24 + kl);
    lemma_u32_be(u32::MAX);
    assert(be32_at(s, 20) == be32_at(kb, 0));
    match r.key {
        Some(k) => {
            lemma_u32_be(k.len() as u32);
            assert(kb.subrange(0, 4) =~= u32_be(k.len() as u32));
            lemma_be32_at(kb, 0, k.len() as u32);
            assert(s.subrange(24, 24 + kl) =~= kb.subrange(4, 4 + kl));
            assert(kb.subrange(4, 4 + kl) =~= k);
        },
        None => {
            assert(kb.subrange(0, 4) =~= u32_be(u32::MAX));
            lemma_be32_at(kb, 0, u32::MAX);
        },
    }
    let vb = s.subrange(24 + kl, s.len() as int);
    let vl = opt_len(r.value) as int;
    assert(be32_at(s, 24 + kl) == be32_at(vb, 0));
    match r.value {
        Some(v) => {
            lemma_u32_be(v.len() as u32);
            assert(vb.subrange(0, 4) =~= u32_be(v.len() as u32));
            lemma_be32_at(vb, 0, v.len() as u32);
            assert(s.subrange(28 + kl, 28 + kl + vl) =~= vb.subrange(4, 4 + vl));
            assert(vb.subrange(4, 4 + vl) =~= v);
        },
        None => {
            assert(vb.subrange(0, 4) =~= u32_be(u32::MAX));
            lemma_be32_at(vb, 0, u32::MAX);
        },
    }
    assert(record_outcome(s) == RecordOutcome::Decoded(r, record_size(r)));
    lemma_outcome_extend(s, rest);
}

} // verus!
