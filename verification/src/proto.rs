//! The messages of the Cast protocol and how they are framed on the wire: the
//! length of a message in four bytes, the highest first, and the message.

use vstd::prelude::*;
use crate::mp4::{be32, be32_bytes, law_be32_round_trip, read_be32};

verus! {

pub const NS_CONNECTION: &'static str = "urn:x-cast:com.google.cast.tp.connection";

pub const NS_HEARTBEAT: &'static str = "urn:x-cast:com.google.cast.tp.heartbeat";

pub const NS_RECEIVER: &'static str = "urn:x-cast:com.google.cast.receiver";

pub const NS_MEDIA: &'static str = "urn:x-cast:com.google.cast.media";

pub const NS_MULTIZONE: &'static str = "urn:x-cast:com.google.cast.multizone";

/// A message.
#[derive(Debug)]
pub struct CastMessage {
    /// Always 0.
    pub protocol_version: i32,
    pub source_id: String,
    pub destination_id: String,
    pub namespace: String,
    /// 0 for text, 1 for bytes.
    pub payload_type: i32,
    pub payload_utf8: Option<String>,
    pub payload_binary: Option<Vec<u8>>,
}

/// A message of text.
pub fn text_msg(dest: &str, namespace: &str, payload: &str) -> (r: CastMessage)
    ensures
        r.protocol_version == 0,
        r.source_id@ == "sender-pacto"@,
        r.destination_id@ == dest@,
        r.namespace@ == namespace@,
        r.payload_type == 0,
        r.payload_utf8 is Some,
        r.payload_utf8->0@ == payload@,
        r.payload_binary is None,
{
    CastMessage {
        protocol_version: 0,
        source_id: "sender-pacto".to_string(),
        destination_id: dest.to_string(),
        namespace: namespace.to_string(),
        payload_type: 0,
        payload_utf8: Some(payload.to_string()),
        payload_binary: None,
    }
}

/// The longest message that is taken.
pub const MAX_FRAME: usize = 1_048_576;

/// A message as it goes over the wire.
pub open spec fn framed(body: Seq<u8>) -> Seq<u8> {
    be32_bytes(body.len() as int % 0x1_0000_0000) + body
}

pub fn frame(body: &[u8]) -> (r: Vec<u8>)
    ensures
        r@ == framed(body@),
{
    let n: u32 = (body.len() as u64 % 0x1_0000_0000) as u32;
    let mut out: Vec<u8> = Vec::new();
    out.push((n / 0x100_0000) as u8);
    out.push((n / 0x1_0000 % 256) as u8);
    out.push((n / 256 % 256) as u8);
    out.push((n % 256) as u8);
    proof {
        assert(out@ =~= be32_bytes(n as int));
    }
    let mut i: usize = 0;
    while i < body.len()
        invariant
            i <= body@.len(),
            n == body@.len() % 0x1_0000_0000,
            out@ == be32_bytes(n as int) + body@.take(i as int),
        decreases body@.len() - i,
    {
        out.push(body[i]);
        proof {
            assert(body@.take(i + 1) =~= body@.take(i as int).push(body@[i as int]));
            assert(out@ =~= be32_bytes(n as int) + body@.take(i + 1));
        }
        i = i + 1;
    }
    proof {
        assert(body@.take(body@.len() as int) =~= body@);
    }
    out
}

/// How long the message is whose frame starts with the given bytes.
pub fn frame_length(head: &[u8]) -> (r: Result<usize, String>)
    requires
        head@.len() >= 4,
    ensures
        match r {
            Ok(n) => n == be32(head@, 0) && n <= MAX_FRAME,
            Err(e) => be32(head@, 0) > MAX_FRAME && e@ == "frame too large"@,
        },
{
    let n: u32 = read_be32(head, 0);
    if n as u64 > MAX_FRAME as u64 {
        Err("frame too large".to_string())
    } else {
        Ok(n as usize)
    }
}

/// What is written in a frame is read back: the length tells where it ends, and the
/// message stands behind the length.
pub proof fn law_frame_round_trip(body: Seq<u8>)
    requires
        body.len() <= MAX_FRAME,
    ensures
        be32(framed(body), 0) == body.len(),
        framed(body).len() == 4 + body.len(),
        framed(body).subrange(4, 4 + be32(framed(body), 0)) == body,
{
    let n = body.len() as int;
    law_be32_round_trip(n);
    assert(be32(framed(body), 0) == be32(be32_bytes(n), 0));
    assert(framed(body).subrange(4, 4 + n) =~= body);
}

} // verus!
