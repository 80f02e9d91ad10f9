//! The control-plane wire protocol: a 4-byte big-endian length prefix
//! followed by exactly that many payload bytes, carrying a kind-plus-payload
//! envelope. The socket I/O and the payload serialization live outside the
//! library; the framing arithmetic and the envelope rules live here.

use vstd::prelude::*;

verus! {

/// The message-kind discriminant of the envelope: a small closed set, where
/// anything unrecognized reads as `Unknown`.
#[derive(Clone, Copy, PartialEq, Eq, Structural)]
pub enum MessageType {
    /// "Snapshot the registry."
    List,
    /// An unrecognized request kind; answered, never fatal.
    Unknown,
}

/// The envelope exchanged over the control socket: a kind and an optional
/// opaque string payload.
pub struct Message {
    pub kind: MessageType,
    pub payload: Option<String>,
}

impl Message {
    /// An envelope of the given kind with no payload.
    pub fn from_type(kind: MessageType) -> (r: Message)
        ensures
            r.kind == kind,
            r.payload is None,
    {
        Message { kind, payload: None }
    }

    /// The same envelope carrying this payload.
    pub fn with(self, payload: String) -> (r: Message)
        ensures
            r.kind == self.kind,
            r.payload == Some(payload),
    {
        Message { kind: self.kind, payload: Some(payload) }
    }
}

/// The four big-endian bytes of a frame length.
pub open spec fn spec_be_bytes(n: u32) -> Seq<u8> {
    seq![
        (n / 0x1000000) as u8,
        ((n / 0x10000) % 0x100) as u8,
        ((n / 0x100) % 0x100) as u8,
        (n % 0x100) as u8,
    ]
}

/// The frame length read back from four big-endian bytes.
pub open spec fn spec_be_val(b: Seq<u8>) -> int {
    b[0] * 0x1000000 + b[1] * 0x10000 + b[2] * 0x100 + b[3]
}

/// Writes a frame length as its four big-endian bytes.
pub fn encode_len(n: u32) -> (r: Vec<u8>)
    ensures
        r@ == spec_be_bytes(n),
{
    let mut r: Vec<u8> = Vec::new();
    r.push((n / 0x1000000) as u8);
    r.push(((n / 0x10000) % 0x100) as u8);
    r.push(((n / 0x100) % 0x100) as u8);
    r.push((n % 0x100) as u8);
    proof {
        assert(r@ =~= spec_be_bytes(n));
    }
    r
}

/// Reads a frame length from its four big-endian bytes.
pub fn decode_len(b: &Vec<u8>) -> (r: u32)
    requires
        b@.len() == 4,
    ensures
        r == spec_be_val(b@),
{
    (b[0] as u32) * 0x1000000 + (b[1] as u32) * 0x10000 + (b[2] as u32) * 0x100 + (b[3] as u32)
}

/// Reading back the four bytes of a written length yields that length, and
/// writing the length read from any four bytes yields those bytes: the
/// frame-length encoding loses nothing in either direction.
pub proof fn lemma_len_round_trip(n: u32, b: Seq<u8>)
    requires
        b.len() == 4,
    ensures
        spec_be_val(spec_be_bytes(n)) == n,
        spec_be_bytes(spec_be_val(b) as u32) == b,
{
    assert(spec_be_val(spec_be_bytes(n)) == n) by {
        assert((n / 0x1000000) * 0x1000000 + ((n / 0x10000) % 0x100) * 0x10000 + ((n / 0x100)
            % 0x100) * 0x100 + (n % 0x100) == n) by (nonlinear_arith);
    }
    let v = spec_be_val(b);
    assert(0 <= v < 0x100000000) by {
        assert(b[0] <= 0xff && b[1] <= 0xff && b[2] <= 0xff && b[3] <= 0xff);
    }
    let m = v as u32;
    assert(m / 0x1000000 == b[0] && (m / 0x10000) % 0x100 == b[1] && (m / 0x100) % 0x100 == b[2]
        && m % 0x100 == b[3]) by (nonlinear_arith)
        requires
            m == b[0] * 0x1000000 + b[1] * 0x10000 + b[2] * 0x100 + b[3],
            0 <= b[0] <= 0xff,
            0 <= b[1] <= 0xff,
            0 <= b[2] <= 0xff,
            0 <= b[3] <= 0xff,
    ;
    assert(spec_be_bytes(m) =~= b);
}

/// Wraps a payload into one wire frame: the payload's length as four
/// big-endian bytes, then the payload itself. A payload too long for the
/// 4-byte length prefix is refused.
pub fn frame_payload(payload: &Vec<u8>) -> (r: Option<Vec<u8>>)
    ensures
        match r {
            Some(f) => {
                &&& payload@.len() <= u32::MAX
                &&& f@ == spec_be_bytes(payload@.len() as u32) + payload@
            },
            None => payload@.len() > u32::MAX,
        },
{
    if payload.len() > (u32::MAX as usize) {
        return None;
    }
    let mut f = encode_len(payload.len() as u32);
    let n = payload.len();
    let mut i: usize = 0;
    while i < n
        invariant
            i <= n,
            n == payload@.len() <= u32::MAX,
            f@ == spec_be_bytes(payload@.len() as u32) + payload@.take(i as int),
        decreases n - i,
    {
        f.push(payload[i]);
        proof {
            assert(f@ =~= spec_be_bytes(payload@.len() as u32) + payload@.take(i + 1 as int));
        }
        i += 1;
    }
    proof {
        assert(payload@.take(n as int) =~= payload@);
    }
    Some(f)
}

} // verus!
