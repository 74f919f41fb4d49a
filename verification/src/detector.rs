//! HTTP/1.1 detection over the first bytes of each direction of a stream.
use vstd::prelude::*;
use crate::http::{detect_request_prefix, detect_response_prefix, request_detection, response_detection, MAX_HEAD_BYTES};
use crate::protocol::{DetectionResult, Direction};

verus! {

/// One captured chunk of a protocol stream; its capture time, when known,
/// in nanoseconds since the Unix epoch.
#[derive(Clone, Debug, PartialEq, Eq)]
pub struct StreamChunk {
    pub direction: Direction,
    pub sequence: u64,
    pub timestamp: Option<i128>,
    pub payload: Vec<u8>,
}

/// The chunks of one connection as a protocol sees them: when it started
/// (nanoseconds since the Unix epoch), its chunks in order, and whether
/// capture cut it short.
#[derive(Clone, Debug, PartialEq, Eq)]
pub struct ProtocolStream {
    pub started_at: Option<i128>,
    pub chunks: Vec<StreamChunk>,
    pub truncated: bool,
}

/// The first bytes of one direction, at most `MAX_HEAD_BYTES` of them, in
/// chunk order.
pub open spec fn head_of(chunks: Seq<StreamChunk>, d: Direction) -> Seq<u8>
    decreases chunks.len(),
{
    if chunks.len() == 0 {
        Seq::empty()
    } else {
        let before = head_of(chunks.drop_last(), d);
        let c = chunks.last();
        if c.direction == d && before.len() < MAX_HEAD_BYTES {
            let room = MAX_HEAD_BYTES - before.len();
            before + c.payload@.subrange(0, if c.payload@.len() < room { c.payload@.len() as int } else { room })
        } else {
            before
        }
    }
}

pub proof fn lemma_head_bounded(chunks: Seq<StreamChunk>, d: Direction)
    ensures
        head_of(chunks, d).len() <= MAX_HEAD_BYTES,
    decreases chunks.len(),
{
    if chunks.len() > 0 {
        lemma_head_bounded(chunks.drop_last(), d);
    }
}

/// What detection concludes: from the server side alone when the client
/// sent nothing, else from the request side, falling back to the response
/// side when the request side is undecided.
pub open spec fn detection(client: Seq<u8>, server: Seq<u8>, r: DetectionResult) -> bool {
    if client.len() == 0 {
        response_detection(server, r)
    } else {
        exists|q: Option<DetectionResult>| #[trigger] request_detection(client, q) && match q {
            Some(x) => r == x,
            None => response_detection(server, r),
        }
    }
}

/// The HTTP/1.1 detector.
pub struct Detector {}

fn direction_head(chunks: &[StreamChunk], d: Direction) -> (h: Vec<u8>)
    ensures
        h@ == head_of(chunks@, d),
{
    let mut out: Vec<u8> = Vec::new();
    let mut i: usize = 0;
    while i < chunks.len()
        invariant
            i <= chunks@.len(),
            out@ == head_of(chunks@.subrange(0, i as int), d),
        decreases chunks.len() - i,
    {
        proof {
            assert(chunks@.subrange(0, i + 1).drop_last() =~= chunks@.subrange(0, i as int));
            lemma_head_bounded(chunks@.subrange(0, i as int), d);
        }
        let c = &chunks[i];
        if c.direction == d && out.len() < MAX_HEAD_BYTES {
            let room = MAX_HEAD_BYTES - out.len();
            let take = if c.payload.len() < room { c.payload.len() } else { room };
            let part = crate::bytes::copy_range(c.payload.as_slice(), 0, take);
            let ghost before = out@;
            let mut part = part;
            out.append(&mut part);
            proof {
                assert(chunks@.subrange(0, i + 1).last() == chunks@[i as int]);
            }
        }
        i = i + 1;
    }
    proof { assert(chunks@.subrange(0, chunks@.len() as int) =~= chunks@); }
    out
}

impl Detector {
    pub fn new() -> (d: Self) {
        Detector {}
    }

    /// Detects HTTP/1.1 in a stream from its first bytes each way.
    pub fn detect(&self, chunks: &[StreamChunk]) -> (r: DetectionResult)
        ensures
            detection(head_of(chunks@, Direction::ClientToServer), head_of(chunks@, Direction::ServerToClient), r),
    {
        let client = direction_head(chunks, Direction::ClientToServer);
        let server = direction_head(chunks, Direction::ServerToClient);
        if client.len() == 0 {
            return detect_response_prefix(server.as_slice());
        }
        let q = detect_request_prefix(client.as_slice());
        match q {
            Some(x) => {
                assert(request_detection(client@, q));
                x
            },
            None => {
                let r = detect_response_prefix(server.as_slice());
                assert(request_detection(client@, q));
                r
            },
        }
    }
}

} // verus!
