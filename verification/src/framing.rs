//! The frames that carry every message between the services: an 8-byte big-endian length,
//! then the message bytes. Listeners refuse frames longer than `MAX_FRAME`.
use vstd::prelude::*;

verus! {

/// The longest message a listener reads, in bytes.
pub const MAX_FRAME: u64 = 4 * 1024 * 1024;

/// `n` as 8 bytes, most significant first (`u64::to_be_bytes`).
pub open spec fn be_bytes(n: u64) -> Seq<u8> {
    seq![
        (n >> 56u64) as u8,
        (n >> 48u64) as u8,
        (n >> 40u64) as u8,
        (n >> 32u64) as u8,
        (n >> 24u64) as u8,
        (n >> 16u64) as u8,
        (n >> 8u64) as u8,
        n as u8,
    ]
}

/// The number that 8 bytes, most significant first, stand for (`u64::from_be_bytes`).
pub open spec fn be_value(b: Seq<u8>) -> u64 {
    be_value_of(b[0], b[1], b[2], b[3], b[4], b[5], b[6], b[7])
}

pub open spec fn be_value_of(b0: u8, b1: u8, b2: u8, b3: u8, b4: u8, b5: u8, b6: u8, b7: u8) -> u64 {
    ((b0 as u64) << 56u64) | ((b1 as u64) << 48u64) | ((b2 as u64) << 40u64) | ((b3 as u64)
        << 32u64) | ((b4 as u64) << 24u64) | ((b5 as u64) << 16u64) | ((b6 as u64) << 8u64) | (
    b7 as u64)
}

/// The header that announces a message of `len` bytes.
pub fn length_header(len: u64) -> (h: [u8; 8])
    ensures
        h@ == be_bytes(len),
{
    let h = [
        (len >> 56u64) as u8,
        (len >> 48u64) as u8,
        (len >> 40u64) as u8,
        (len >> 32u64) as u8,
        (len >> 24u64) as u8,
        (len >> 16u64) as u8,
        (len >> 8u64) as u8,
        len as u8,
    ];
    assert(h@ =~= be_bytes(len));
    h
}

/// The message length that a header announces.
pub fn frame_length(header: [u8; 8]) -> (n: u64)
    ensures
        n == be_value(header@),
{
    ((header[0] as u64) << 56u64) | ((header[1] as u64) << 48u64) | ((header[2] as u64) << 40u64)
        | ((header[3] as u64) << 32u64) | ((header[4] as u64) << 24u64) | ((header[5] as u64)
        << 16u64) | ((header[6] as u64) << 8u64) | (header[7] as u64)
}

/// A listener reads a frame only when its announced length is at most `MAX_FRAME`.
pub fn frame_fits(len: u64) -> (res: bool)
    ensures
        res == (len <= MAX_FRAME),
{
    len <= MAX_FRAME
}

/// The bytes sent for a message: its header, then the message.
pub fn encode_frame(payload: &Vec<u8>) -> (frame: Vec<u8>)
    ensures
        frame@ == be_bytes(payload@.len() as u64) + payload@,
{
    let header = length_header(payload.len() as u64);
    let mut frame: Vec<u8> = Vec::new();
    let mut i: usize = 0;
    while i < 8
        invariant
            i <= 8,
            header@ == be_bytes(payload@.len() as u64),
            frame@ == header@.take(i as int),
        decreases 8 - i,
    {
        frame.push(header[i]);
        assert(header@.take(i + 1) == header@.take(i as int).push(header@[i as int]));
        i = i + 1;
    }
    assert(header@.take(8) == header@);
    let mut j: usize = 0;
    while j < payload.len()
        invariant
            j <= payload@.len(),
            frame@ == be_bytes(payload@.len() as u64) + payload@.take(j as int),
        decreases payload@.len() - j,
    {
        frame.push(payload[j]);
        assert(payload@.take(j + 1) == payload@.take(j as int).push(payload@[j as int]));
        j = j + 1;
    }
    assert(payload@.take(payload@.len() as int) == payload@);
    frame
}

proof fn lemma_be_roundtrip(n: u64)
    ensures
        be_value_of(
            (n >> 56u64) as u8,
            (n >> 48u64) as u8,
            (n >> 40u64) as u8,
            (n >> 32u64) as u8,
            (n >> 24u64) as u8,
            (n >> 16u64) as u8,
            (n >> 8u64) as u8,
            n as u8,
        ) == n,
{
    assert(((((n >> 56u64) as u8) as u64) << 56u64) | ((((n >> 48u64) as u8) as u64) << 48u64) | ((((n
        >> 40u64) as u8) as u64) << 40u64) | ((((n >> 32u64) as u8) as u64) << 32u64) | ((((n
        >> 24u64) as u8) as u64) << 24u64) | ((((n >> 16u64) as u8) as u64) << 16u64) | ((((n
        >> 8u64) as u8) as u64) << 8u64) | ((n as u8) as u64) == n) by (bit_vector);
}

/// The length a header announces is the length it was made for.
pub proof fn law_header_reads_back(n: u64)
    ensures
        be_value(be_bytes(n)) == n,
{
    lemma_be_roundtrip(n);
}

/// The header of a frame announces the length of the message it carries.
pub proof fn law_frame_announces_its_length(payload: Seq<u8>)
    requires
        payload.len() <= u64::MAX,
    ensures
        be_value((be_bytes(payload.len() as u64) + payload).take(8)) == payload.len(),
{
    let b = be_bytes(payload.len() as u64);
    assert((b + payload).take(8) =~= b);
    lemma_be_roundtrip(payload.len() as u64);
}

} // verus!
