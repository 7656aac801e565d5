//! Typed requests over raw frames.
use vstd::prelude::*;
use crate::error::RukaError;
use crate::protocol::frame::{Frame, FrameView};
use crate::protocol::types::{ApiKey, MAGIC_BYTE};
use crate::wire::{
    be32_at, be64_at, copy_range, get_u32, get_u64, lemma_be32_at, lemma_be64_at, lemma_sub_left,
    lemma_sub_right, lemma_u32_be, lemma_u64_be, put_slice, put_u32, put_u64, u32_be, u64_be,
};

verus! {

/// A produce request: append a message to a topic partition.
#[derive(Debug, Clone, PartialEq, Eq)]
pub struct ProduceRequest {
    /// Client-assigned correlation ID.
    pub correlation_id: u32,
    /// Target topic name.
    pub topic: String,
    /// Target partition index.
    pub partition: u32,
    /// Raw message payload to append.
    pub payload: Vec<u8>,
}

/// A produce batch request: append several messages to a topic partition.
#[derive(Debug, Clone, PartialEq, Eq)]
pub struct ProduceBatchRequest {
    /// Client-assigned correlation ID.
    pub correlation_id: u32,
    /// Target topic name.
    pub topic: String,
    /// Target partition index.
    pub partition: u32,
    /// The raw message payloads, in order.
    pub payloads: Vec<Vec<u8>>,
}

/// A fetch request: read messages from a topic partition at an offset.
#[derive(Debug, Clone, PartialEq, Eq)]
pub struct FetchRequest {
    /// Client-assigned correlation ID.
    pub correlation_id: u32,
    /// Target topic name.
    pub topic: String,
    /// Target partition index.
    pub partition: u32,
    /// The logical offset to begin reading from.
    pub offset: u64,
    /// Maximum bytes to return.
    pub max_bytes: u32,
}

/// A parsed, typed request.
#[derive(Debug, Clone, PartialEq, Eq)]
pub enum Request {
    Produce(ProduceRequest),
    ProduceBatch(ProduceBatchRequest),
    Fetch(FetchRequest),
}

pub struct ProduceRequestView {
    pub correlation_id: u32,
    pub topic: Seq<char>,
    pub partition: u32,
    pub payload: Seq<u8>,
}

pub struct ProduceBatchRequestView {
    pub correlation_id: u32,
    pub topic: Seq<char>,
    pub partition: u32,
    pub payloads: Seq<Seq<u8>>,
}

pub struct FetchRequestView {
    pub correlation_id: u32,
    pub topic: Seq<char>,
    pub partition: u32,
    pub offset: u64,
    pub max_bytes: u32,
}

pub enum RequestView {
    Produce(ProduceRequestView),
    ProduceBatch(ProduceBatchRequestView),
    Fetch(FetchRequestView),
}

impl View for ProduceRequest {
    type V = ProduceRequestView;

    open spec fn view(&self) -> ProduceRequestView {
        ProduceRequestView {
            correlation_id: self.correlation_id,
            topic: self.topic@,
            partition: self.partition,
            payload: self.payload@,
        }
    }
}

/// The contents of a list of byte vectors.
pub open spec fn payloads_view(v: Seq<Vec<u8>>) -> Seq<Seq<u8>> {
    Seq::new(v.len(), |i: int| v[i]@)
}

impl View for ProduceBatchRequest {
    type V = ProduceBatchRequestView;

    open spec fn view(&self) -> ProduceBatchRequestView {
        ProduceBatchRequestView {
            correlation_id: self.correlation_id,
            topic: self.topic@,
            partition: self.partition,
            payloads: payloads_view(self.payloads@),
        }
    }
}

impl View for FetchRequest {
    type V = FetchRequestView;

    open spec fn view(&self) -> FetchRequestView {
        FetchRequestView {
            correlation_id: self.correlation_id,
            topic: self.topic@,
            partition: self.partition,
            offset: self.offset,
            max_bytes: self.max_bytes,
        }
    }
}

impl View for Request {
    type V = RequestView;

    open spec fn view(&self) -> RequestView {
        match self {
            Request::Produce(p) => RequestView::Produce(p@),
            Request::ProduceBatch(p) => RequestView::ProduceBatch(p@),
            Request::Fetch(p) => RequestView::Fetch(p@),
        }
    }
}

/// What parsing a batch payload gives.
pub enum BatchParse {
    Parsed(Seq<Seq<u8>>),
    TooShort { needed: nat, have: nat },
    Trailing,
}

/// One length-prefixed message of a batch payload.
pub open spec fn batch_item(p: Seq<u8>) -> Seq<u8> {
    u32_be(p.len() as u32) + p
}

/// The messages of a batch payload, each with its length prefix.
pub open spec fn batch_items_bytes(ps: Seq<Seq<u8>>) -> Seq<u8>
    decreases ps.len(),
{
    if ps.len() == 0 {
        Seq::empty()
    } else {
        batch_item(ps[0]) + batch_items_bytes(ps.drop_first())
    }
}

/// A whole batch payload: the message count, then the messages.
pub open spec fn batch_payload(ps: Seq<Seq<u8>>) -> Seq<u8> {
    u32_be(ps.len() as u32) + batch_items_bytes(ps)
}

/// Parse `k` length-prefixed messages from `rest`, which must then be empty.
pub open spec fn parse_items(rest: Seq<u8>, k: nat) -> BatchParse
    decreases k,
{
    if k == 0 {
        if rest.len() == 0 {
            BatchParse::Parsed(Seq::empty())
        } else {
            BatchParse::Trailing
        }
    } else if rest.len() < 4 {
        BatchParse::TooShort { needed: 4, have: rest.len() }
    } else {
        let m = be32_at(rest, 0) as nat;
        let r2 = rest.skip(4);
        if r2.len() < m {
            BatchParse::TooShort { needed: m, have: r2.len() }
        } else {
            prepend_item(r2.take(m as int), parse_items(r2.skip(m as int), (k - 1) as nat))
        }
    }
}

/// Put one more parsed message in front.
pub open spec fn prepend_item(x: Seq<u8>, p: BatchParse) -> BatchParse {
    match p {
        BatchParse::Parsed(xs) => BatchParse::Parsed(seq![x] + xs),
        other => other,
    }
}

/// Put several parsed messages in front.
pub open spec fn prepend_items(xs: Seq<Seq<u8>>, p: BatchParse) -> BatchParse {
    match p {
        BatchParse::Parsed(ys) => BatchParse::Parsed(xs + ys),
        other => other,
    }
}

/// Parse a whole batch payload.
pub open spec fn parse_batch(p: Seq<u8>) -> BatchParse {
    if p.len() < 4 {
        BatchParse::TooShort { needed: 4, have: p.len() }
    } else {
        parse_items(p.skip(4), be32_at(p, 0) as nat)
    }
}

/// What converting a frame into a request gives.
pub enum RequestOutcome {
    Parsed(RequestView),
    ErrorFrame,
    TooShort { needed: nat, have: nat },
    Trailing,
}

/// How `Request::from_frame` reads a frame.
pub open spec fn request_outcome(f: FrameView) -> RequestOutcome {
    match f.api_key {
        ApiKey::Error => RequestOutcome::ErrorFrame,
        ApiKey::Produce => RequestOutcome::Parsed(
            RequestView::Produce(
                ProduceRequestView {
                    correlation_id: f.correlation_id,
                    topic: f.topic,
                    partition: f.partition,
                    payload: f.payload,
                },
            ),
        ),
        ApiKey::ProduceBatch => match parse_batch(f.payload) {
            BatchParse::Parsed(ps) => RequestOutcome::Parsed(
                RequestView::ProduceBatch(
                    ProduceBatchRequestView {
                        correlation_id: f.correlation_id,
                        topic: f.topic,
                        partition: f.partition,
                        payloads: ps,
                    },
                ),
            ),
            BatchParse::TooShort { needed, have } => RequestOutcome::TooShort { needed, have },
            BatchParse::Trailing => RequestOutcome::Trailing,
        },
        ApiKey::Fetch => if f.payload.len() != 12 {
            RequestOutcome::TooShort { needed: 12, have: f.payload.len() }
        } else {
            RequestOutcome::Parsed(
                RequestView::Fetch(
                    FetchRequestView {
                        correlation_id: f.correlation_id,
                        topic: f.topic,
                        partition: f.partition,
                        offset: be64_at(f.payload, 0),
                        max_bytes: be32_at(f.payload, 8),
                    },
                ),
            )
        },
    }
}

/// `parse_items` after `i` bytes of messages were read, split at any point.
proof fn lemma_parse_items_step(rest: Seq<u8>, k: nat)
    requires
        k > 0,
        rest.len() >= 4,
        rest.len() - 4 >= be32_at(rest, 0),
    ensures
        ({
            let m = be32_at(rest, 0) as int;
            parse_items(rest, k) == prepend_item(
                rest.subrange(4, 4 + m),
                parse_items(rest.skip(4 + m), (k - 1) as nat),
            )
        }),
{
    let m = be32_at(rest, 0) as int;
    assert(rest.skip(4).take(m) =~= rest.subrange(4, 4 + m));
    assert(rest.skip(4).skip(m) =~= rest.skip(4 + m));
}

impl Request {
    /// Convert a raw frame into a typed request.
    ///
    /// Fetch payloads must hold exactly 12 bytes: the big-endian offset and
    /// the big-endian byte limit. Batch payloads hold a count and that many
    /// length-prefixed messages, with nothing after them.
    pub fn from_frame(frame: Frame) -> (r: Result<Request, RukaError>)
        ensures
            match request_outcome(frame@) {
                RequestOutcome::Parsed(v) => r matches Ok(q) && q@ == v,
                RequestOutcome::ErrorFrame => r matches Err(RukaError::InvalidFrame(m)) && m@
                    == "Client cannot send Error frames"@,
                RequestOutcome::TooShort { needed, have } => r matches Err(
                    RukaError::FrameTooShort { needed: n, have: h },
                ) && n == needed && h == have,
                RequestOutcome::Trailing => r matches Err(RukaError::InvalidFrame(m)) && m@
                    == "trailing bytes in batch payload"@,
            },
    {
        match frame.api_key {
            ApiKey::Error => Err(RukaError::InvalidFrame("Client cannot send Error frames".to_string())),
            ApiKey::Produce => Ok(
                Request::Produce(
                    ProduceRequest {
                        correlation_id: frame.correlation_id,
                        topic: frame.topic,
                        partition: frame.partition,
                        payload: frame.payload,
                    },
                ),
            ),
            ApiKey::ProduceBatch => {
                let payloads = parse_batch_payload(frame.payload.as_slice())?;
                Ok(
                    Request::ProduceBatch(
                        ProduceBatchRequest {
                            correlation_id: frame.correlation_id,
                            topic: frame.topic,
                            partition: frame.partition,
                            payloads,
                        },
                    ),
                )
            },
            ApiKey::Fetch => {
                let p = frame.payload.as_slice();
                if p.len() != 12 {
                    return Err(RukaError::FrameTooShort { needed: 12, have: p.len() });
                }
                let offset = get_u64(p, 0);
                let max_bytes = get_u32(p, 8);
                Ok(
                    Request::Fetch(
                        FetchRequest {
                            correlation_id: frame.correlation_id,
                            topic: frame.topic,
                            partition: frame.partition,
                            offset,
                            max_bytes,
                        },
                    ),
                )
            },
        }
    }
}

/// Parse a batch payload into its messages.
fn parse_batch_payload(p: &[u8]) -> (r: Result<Vec<Vec<u8>>, RukaError>)
    ensures
        match parse_batch(p@) {
            BatchParse::Parsed(ps) => r matches Ok(v) && payloads_view(v@) == ps,
            BatchParse::TooShort { needed, have } => r matches Err(
                RukaError::FrameTooShort { needed: n, have: h },
            ) && n == needed && h == have,
            BatchParse::Trailing => r matches Err(RukaError::InvalidFrame(m)) && m@
                == "trailing bytes in batch payload"@,
        },
{
    let len = p.len();
    if len < 4 {
        return Err(RukaError::FrameTooShort { needed: 4, have: len });
    }
    let batch_len = get_u32(p, 0);
    let mut payloads: Vec<Vec<u8>> = Vec::new();
    let mut pos: usize = 4;
    let mut done: u32 = 0;
    while done < batch_len
        invariant
            4 <= pos <= len == p@.len(),
            done <= batch_len,
            batch_len == be32_at(p@, 0),
            parse_batch(p@) == prepend_items(
                payloads_view(payloads@),
                parse_items(p@.skip(pos as int), (batch_len - done) as nat),
            ),
        decreases batch_len - done,
    {
        let rest = len - pos;
        proof {
            assert(p@.skip(pos as int).len() == rest);
        }
        if rest < 4 {
            return Err(RukaError::FrameTooShort { needed: 4, have: rest });
        }
        let msg_len = get_u32(p, pos) as usize;
        proof {
            assert(be32_at(p@.skip(pos as int), 0) == msg_len) by {
                let s = p@.skip(pos as int);
                assert(s[0] == p@[pos as int] && s[1] == p@[pos + 1] && s[2] == p@[pos + 2] && s[3]
                    == p@[pos + 3]);
            }
            assert(p@.skip(pos as int).skip(4).len() == rest - 4);
        }
        if rest - 4 < msg_len {
            return Err(RukaError::FrameTooShort { needed: msg_len, have: rest - 4 });
        }
        let msg = copy_range(p, pos + 4, pos + 4 + msg_len);
        proof {
            let s = p@.skip(pos as int);
            lemma_parse_items_step(s, (batch_len - done) as nat);
            assert(s.subrange(4, 4 + msg_len) =~= msg@);
            assert(s.skip(4 + msg_len) =~= p@.skip(pos + 4 + msg_len));
        }
        let ghost old_view = payloads_view(payloads@);
        payloads.push(msg);
        proof {
            assert(payloads_view(payloads@) =~= old_view + seq![msg@]);
            assert(old_view + seq![msg@] + (Seq::<Seq<u8>>::empty()) =~= old_view + seq![msg@]);
            assert forall|xs: Seq<Seq<u8>>| (old_view + seq![msg@]) + xs =~= old_view + (seq![msg@]
                + xs) by {}
        }
        pos = pos + 4 + msg_len;
        done = done + 1;
    }
    if pos < len {
        return Err(RukaError::InvalidFrame("trailing bytes in batch payload".to_string()));
    }
    proof {
        assert(p@.skip(pos as int).len() == 0);
        assert(payloads_view(payloads@) + Seq::<Seq<u8>>::empty() =~= payloads_view(payloads@));
    }
    Ok(payloads)
}

/// The frame a produce request travels in.
pub open spec fn produce_request_frame(r: ProduceRequestView) -> FrameView {
    FrameView {
        magic: MAGIC_BYTE,
        api_key: ApiKey::Produce,
        correlation_id: r.correlation_id,
        topic: r.topic,
        partition: r.partition,
        payload: r.payload,
    }
}

/// The frame a produce batch request travels in.
pub open spec fn produce_batch_request_frame(r: ProduceBatchRequestView) -> FrameView {
    FrameView {
        magic: MAGIC_BYTE,
        api_key: ApiKey::ProduceBatch,
        correlation_id: r.correlation_id,
        topic: r.topic,
        partition: r.partition,
        payload: batch_payload(r.payloads),
    }
}

/// The frame a fetch request travels in.
pub open spec fn fetch_request_frame(r: FetchRequestView) -> FrameView {
    FrameView {
        magic: MAGIC_BYTE,
        api_key: ApiKey::Fetch,
        correlation_id: r.correlation_id,
        topic: r.topic,
        partition: r.partition,
        payload: u64_be(r.offset) + u32_be(r.max_bytes),
    }
}

impl ProduceRequest {
    /// Convert back to a raw frame for wire transmission.
    pub fn into_frame(self) -> (r: Frame)
        ensures
            r@ == produce_request_frame(self@),
    {
        Frame {
            magic: MAGIC_BYTE,
            api_key: ApiKey::Produce,
            correlation_id: self.correlation_id,
            topic: self.topic,
            partition: self.partition,
            payload: self.payload,
        }
    }
}

/// `batch_items_bytes` grows by one item at the end.
proof fn lemma_batch_items_push(ps: Seq<Seq<u8>>, x: Seq<u8>)
    ensures
        batch_items_bytes(ps.push(x)) == batch_items_bytes(ps) + batch_item(x),
    decreases ps.len(),
{
    if ps.len() == 0 {
        let q = ps.push(x);
        assert(q[0] == x);
        assert(q.drop_first() =~= Seq::<Seq<u8>>::empty());
        assert(batch_items_bytes(q.drop_first()) == Seq::<u8>::empty());
        assert(batch_items_bytes(ps) == Seq::<u8>::empty());
        assert(batch_items_bytes(q) =~= batch_items_bytes(ps) + batch_item(x));
    } else {
        lemma_batch_items_push(ps.drop_first(), x);
        assert(ps.push(x).drop_first() =~= ps.drop_first().push(x));
        assert(batch_items_bytes(ps.push(x)) =~= batch_item(ps[0]) + (batch_items_bytes(
            ps.drop_first(),
        ) + batch_item(x)));
    }
}

impl ProduceBatchRequest {
    /// Convert back to a raw frame for wire transmission: the message count,
    /// then each message with its length.
    pub fn into_frame(self) -> (r: Frame)
        ensures
            r@ == produce_batch_request_frame(self@),
    {
        let mut payload: Vec<u8> = Vec::new();
        put_u32(&mut payload, self.payloads.len() as u32);
        let n = self.payloads.len();
        let mut i: usize = 0;
        while i < n
            invariant
                n == self.payloads@.len(),
                i <= n,
                payload@ == u32_be(n as u32) + batch_items_bytes(
                    payloads_view(self.payloads@).take(i as int),
                ),
            decreases n - i,
        {
            let p = &self.payloads[i];
            put_u32(&mut payload, p.len() as u32);
            put_slice(&mut payload, p.as_slice());
            proof {
                let pv = payloads_view(self.payloads@);
                assert(pv.take(i + 1) =~= pv.take(i as int).push(p@));
                lemma_batch_items_push(pv.take(i as int), p@);
            }
            i = i + 1;
        }
        proof {
            assert(payloads_view(self.payloads@).take(n as int) =~= payloads_view(self.payloads@));
        }
        Frame {
            magic: MAGIC_BYTE,
            api_key: ApiKey::ProduceBatch,
            correlation_id: self.correlation_id,
            topic: self.topic,
            partition: self.partition,
            payload,
        }
    }
}

impl FetchRequest {
    /// Convert back to a raw frame: the offset as 8 big-endian bytes, then
    /// the byte limit as 4.
    pub fn into_frame(self) -> (r: Frame)
        ensures
            r@ == fetch_request_frame(self@),
    {
        let mut payload: Vec<u8> = Vec::with_capacity(12);
        put_u64(&mut payload, self.offset);
        put_u32(&mut payload, self.max_bytes);
        Frame {
            magic: MAGIC_BYTE,
            api_key: ApiKey::Fetch,
            correlation_id: self.correlation_id,
            topic: self.topic,
            partition: self.partition,
            payload,
        }
    }
}

/// The messages of a batch are parsed back from their encoding.
#[verifier::spinoff_prover]
#[verifier::rlimit(40)]
proof fn lemma_parse_items_round_trip(ps: Seq<Seq<u8>>)
    requires
        forall|i: int| 0 <= i < ps.len() ==> #[trigger] ps[i].len() <= u32::MAX,
    ensures
        parse_items(batch_items_bytes(ps), ps.len()) == BatchParse::Parsed(ps),
    decreases ps.len(),
{
    if ps.len() > 0 {
        let x = ps[0];
        let m = x.len() as int;
        let tail = ps.drop_first();
        lemma_parse_items_round_trip(tail);
        let s = batch_items_bytes(ps);
        let head = u32_be(x.len() as u32);
        lemma_u32_be(x.len() as u32);
        let rest = batch_items_bytes(tail);
        assert(s == head + x + rest);
        assert(s.subrange(0, 4) == head) by {
            assert(s.subrange(0, 4) =~= head);
        }
        lemma_be32_at(s, 0, x.len() as u32);
        lemma_parse_items_step(s, ps.len());
        assert(s.subrange(4, 4 + m) == x) by {
            assert(s.subrange(4, 4 + m) =~= x);
        }
        assert(s.skip(4 + m) == rest) by {
            assert(s.skip(4 + m) =~= rest);
        }
        assert(parse_items(rest, tail.len()) == BatchParse::Parsed(tail));
        assert(seq![x] + tail =~= ps);
    } else {
        assert(batch_items_bytes(ps).len() == 0);
        assert(ps =~= Seq::<Seq<u8>>::empty());
    }
}

/// A produce request read back from its frame is the same request.
pub proof fn law_produce_request_round_trip(r: ProduceRequestView)
    ensures
        request_outcome(produce_request_frame(r)) == RequestOutcome::Parsed(RequestView::Produce(r)),
{
}

/// A produce batch request read back from its frame is the same request,
/// as long as its count and each message length fit the 4-byte fields.
pub proof fn law_produce_batch_request_round_trip(r: ProduceBatchRequestView)
    requires
        r.payloads.len() <= u32::MAX,
        forall|i: int| 0 <= i < r.payloads.len() ==> #[trigger] r.payloads[i].len() <= u32::MAX,
    ensures
        request_outcome(produce_batch_request_frame(r)) == RequestOutcome::Parsed(
            RequestView::ProduceBatch(r),
        ),
{
    let p = batch_payload(r.payloads);
    lemma_u32_be(r.payloads.len() as u32);
    lemma_parse_items_round_trip(r.payloads);
    assert(p.subrange(0, 4) =~= u32_be(r.payloads.len() as u32));
    lemma_be32_at(p, 0, r.payloads.len() as u32);
    assert(p.skip(4) =~= batch_items_bytes(r.payloads));
}

/// A fetch request read back from its frame is the same request.
pub proof fn law_fetch_request_round_trip(r: FetchRequestView)
    ensures
        request_outcome(fetch_request_frame(r)) == RequestOutcome::Parsed(RequestView::Fetch(r)),
{
    let p = u64_be(r.offset) + u32_be(r.max_bytes);
    lemma_u64_be(r.offset);
    lemma_u32_be(r.max_bytes);
    lemma_sub_left(u64_be(r.offset), u32_be(r.max_bytes), 0, 8);
    assert(u64_be(r.offset).subrange(0, 8) =~= u64_be(r.offset));
    lemma_be64_at(p, 0, r.offset);
    lemma_sub_right(u64_be(r.offset), u32_be(r.max_bytes));
    lemma_be32_at(p, 8, r.max_bytes);
}

} // verus!
