//! Constants of the wire format, the codec's errors and big-endian integers.

use vstd::prelude::*;

verus! {

/// Largest datagram the codec reads or produces.
pub const MAX_PACKET_SIZE: usize = 512;

/// Size of the fixed header that opens every message.
pub const HEADER_SIZE: usize = 12;

/// Longest label a name may hold.
pub const MAX_LABEL_LEN: usize = 63;

/// How many compression pointers may be followed while reading one name.
pub const MAX_POINTER_CHASES: usize = 5;

/// Why a datagram could not be read or a message could not be written.
#[derive(Clone, Copy, Debug, PartialEq, Eq, Structural)]
pub enum CodecError {
    /// The bytes end before the announced content does.
    Truncated,
    /// A compression pointer does not point backwards, too many pointers
    /// chain up, or a length byte carries a reserved marker.
    MalformedCompression,
    /// The content is larger than the packet buffer.
    BufferOverflow,
}

/// The 16-bit big-endian number stored at `at`.
pub open spec fn be16(buf: Seq<u8>, at: int) -> u16 {
    (buf[at] as int * 256 + buf[at + 1] as int) as u16
}

/// The 32-bit big-endian number stored at `at`.
pub open spec fn be32(buf: Seq<u8>, at: int) -> u32 {
    (buf[at] as int * 16777216 + buf[at + 1] as int * 65536 + buf[at + 2] as int * 256
        + buf[at + 3] as int) as u32
}

/// The two low-order bytes of `v`, most significant first.
pub open spec fn be16_bytes(v: int) -> Seq<u8> {
    seq![((v / 256) % 256) as u8, (v % 256) as u8]
}

/// The four low-order bytes of `v`, most significant first.
pub open spec fn be32_bytes(v: int) -> Seq<u8> {
    seq![
        ((v / 16777216) % 256) as u8,
        ((v / 65536) % 256) as u8,
        ((v / 256) % 256) as u8,
        (v % 256) as u8,
    ]
}

/// Reads the 16-bit number at `at`.
pub fn read_u16(buf: &[u8], at: usize) -> (v: u16)
    requires
        at + 2 <= buf.len(),
    ensures
        v == be16(buf@, at as int),
{
    let hi: u16 = buf[at] as u16;
    let lo: u16 = buf[at + 1] as u16;
    hi * 256 + lo
}

/// Reads the 32-bit number at `at`.
pub fn read_u32(buf: &[u8], at: usize) -> (v: u32)
    requires
        at + 4 <= buf.len(),
    ensures
        v == be32(buf@, at as int),
{
    let a: u32 = buf[at] as u32;
    let b: u32 = buf[at + 1] as u32;
    let c: u32 = buf[at + 2] as u32;
    let d: u32 = buf[at + 3] as u32;
    a * 16777216 + b * 65536 + c * 256 + d
}

/// Appends `v` as two bytes.
pub fn push_u16(out: &mut Vec<u8>, v: u16)
    ensures
        final(out)@ == old(out)@ + be16_bytes(v as int),
{
    out.push((v / 256) as u8);
    out.push((v % 256) as u8);
    assert(out@ =~= old(out)@ + be16_bytes(v as int));
}

/// Appends `v` as four bytes.
pub fn push_u32(out: &mut Vec<u8>, v: u32)
    ensures
        final(out)@ == old(out)@ + be32_bytes(v as int),
{
    out.push((v / 16777216) as u8);
    out.push(((v / 65536) % 256) as u8);
    out.push(((v / 256) % 256) as u8);
    out.push((v % 256) as u8);
    assert(out@ =~= old(out)@ + be32_bytes(v as int));
}

/// Reading back what `be16_bytes` wrote gives the number again.
pub proof fn lemma_be16_round_trip(buf: Seq<u8>, at: int, v: int)
    requires
        0 <= v < 65536,
        0 <= at,
        at + 2 <= buf.len(),
        buf.subrange(at, at + 2) == be16_bytes(v),
    ensures
        be16(buf, at) == v,
{
    let s = buf.subrange(at, at + 2);
    assert(buf[at] == s[0]);
    assert(buf[at + 1] == s[1]);
}

/// Reading back what `be32_bytes` wrote gives the number again.
pub proof fn lemma_be32_round_trip(buf: Seq<u8>, at: int, v: int)
    requires
        0 <= v < 4294967296,
        0 <= at,
        at + 4 <= buf.len(),
        buf.subrange(at, at + 4) == be32_bytes(v),
    ensures
        be32(buf, at) == v,
{
    let s = buf.subrange(at, at + 4);
    assert(buf[at] == s[0]);
    assert(buf[at + 1] == s[1]);
    assert(buf[at + 2] == s[2]);
    assert(buf[at + 3] == s[3]);
}

} // verus!
