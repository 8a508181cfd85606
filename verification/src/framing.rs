//! Packets on the wire: a 4-byte big-endian length followed by that many
//! bytes of payload.
use vstd::prelude::*;

verus! {

/// The number of bytes of the length prefix.
pub const HEADER_LEN: usize = 4;

/// The big-endian bytes of `n`.
pub open spec fn be32(n: u32) -> Seq<u8> {
    seq![(n >> 24u32) as u8, ((n >> 16u32) & 0xffu32) as u8, ((n >> 8u32) & 0xffu32) as u8, (n & 0xffu32) as u8]
}

/// The number whose big-endian bytes are `b0 b1 b2 b3`.
pub open spec fn from_be32(b0: u8, b1: u8, b2: u8, b3: u8) -> u32 {
    ((b0 as u32) << 24u32) | ((b1 as u32) << 16u32) | ((b2 as u32) << 8u32) | (b3 as u32)
}

/// The frame of a payload: its length, cut to 32 bits, then the payload.
pub open spec fn frame(data: Seq<u8>) -> Seq<u8> {
    be32(data.len() as u32) + data
}

/// The length a frame at the start of `buf` announces.
pub open spec fn announced_len(buf: Seq<u8>) -> int
    recommends
        buf.len() >= 4,
{
    from_be32(buf[0], buf[1], buf[2], buf[3]) as int
}

/// What reading one packet from the start of `buf` gives: the payload and
/// the number of bytes it took, or nothing while the packet is incomplete.
pub open spec fn decode(buf: Seq<u8>) -> Option<(Seq<u8>, int)> {
    if buf.len() < 4 || buf.len() < 4 + announced_len(buf) {
        None
    } else {
        Some((buf.subrange(4, 4 + announced_len(buf)), 4 + announced_len(buf)))
    }
}

proof fn lemma_be32_round_trip(n: u32)
    ensures
        from_be32(be32(n)[0], be32(n)[1], be32(n)[2], be32(n)[3]) == n,
{
    let b0 = (n >> 24u32) as u8;
    let b1 = ((n >> 16u32) & 0xffu32) as u8;
    let b2 = ((n >> 8u32) & 0xffu32) as u8;
    let b3 = (n & 0xffu32) as u8;
    assert(((b0 as u32) << 24u32) | ((b1 as u32) << 16u32) | ((b2 as u32) << 8u32) | (b3 as u32) == n) by (bit_vector)
        requires
            b0 == (n >> 24u32) as u8,
            b1 == ((n >> 16u32) & 0xffu32) as u8,
            b2 == ((n >> 8u32) & 0xffu32) as u8,
            b3 == (n & 0xffu32) as u8,
    ;
}

/// The frame that carries `data`. Like a 32-bit length prefix, the length is
/// cut to its low 32 bits.
pub fn write_packet(data: &[u8]) -> (out: Vec<u8>)
    ensures
        out@ == frame(data@),
{
    let len = data.len() as u32;
    let mut out: Vec<u8> = Vec::new();
    out.push((len >> 24u32) as u8);
    out.push(((len >> 16u32) & 0xffu32) as u8);
    out.push(((len >> 8u32) & 0xffu32) as u8);
    out.push((len & 0xffu32) as u8);
    let mut i: usize = 0;
    while i < data.len()
        invariant
            i <= data@.len(),
            len == data@.len() as u32,
            out@ == be32(len) + data@.take(i as int),
        decreases data@.len() - i,
    {
        out.push(data[i]);
        proof {
            assert(data@.take(i + 1) =~= data@.take(i as int).push(data@[i as int]));
        }
        i = i + 1;
    }
    proof {
        assert(data@.take(i as int) =~= data@);
    }
    out
}

/// The payload length that a packet's 4-byte header announces.
pub fn packet_length(header: &[u8]) -> (n: u32)
    requires
        header@.len() >= 4,
    ensures
        n == announced_len(header@),
{
    ((header[0] as u32) << 24u32) | ((header[1] as u32) << 16u32) | ((header[2] as u32) << 8u32) | (header[3] as u32)
}

/// Reads one packet from the start of `buf`: its payload and the number of
/// bytes it took, or `None` while fewer bytes than the packet needs are there.
pub fn read_packet(buf: &[u8]) -> (r: Option<(Vec<u8>, usize)>)
    ensures
        match (r, decode(buf@)) {
            (Some((payload, used)), Some((p, u))) => payload@ == p && used == u,
            (None, None) => true,
            _ => false,
        },
{
    if buf.len() < HEADER_LEN {
        return None;
    }
    let b0 = buf[0];
    let b1 = buf[1];
    let b2 = buf[2];
    let b3 = buf[3];
    let len: u32 = ((b0 as u32) << 24u32) | ((b1 as u32) << 16u32) | ((b2 as u32) << 8u32) | (b3 as u32);
    let available = buf.len() - HEADER_LEN;
    if (len as usize) > available {
        return None;
    }
    let end = HEADER_LEN + len as usize;
    let mut payload: Vec<u8> = Vec::new();
    let mut i: usize = HEADER_LEN;
    while i < end
        invariant
            HEADER_LEN <= i <= end,
            end <= buf@.len(),
            payload@ == buf@.subrange(4, i as int),
        decreases end - i,
    {
        payload.push(buf[i]);
        proof {
            assert(buf@.subrange(4, i + 1) =~= buf@.subrange(4, i as int).push(buf@[i as int]));
        }
        i = i + 1;
    }
    Some((payload, end))
}

/// A frame read back gives the payload it was made from, and the number of
/// bytes it spans, whatever follows it; cut anywhere before its end, it reads
/// as incomplete.
pub proof fn law_frame_round_trip(data: Seq<u8>, rest: Seq<u8>, cut: int)
    requires
        data.len() <= u32::MAX,
        0 <= cut < frame(data).len(),
    ensures
        decode(frame(data) + rest) == Some((data, frame(data).len() as int)),
        decode(frame(data).take(cut)) is None,
{
    let n = data.len() as u32;
    lemma_be32_round_trip(n);
    let whole = frame(data) + rest;
    assert(whole[0] == be32(n)[0] && whole[1] == be32(n)[1] && whole[2] == be32(n)[2] && whole[3] == be32(n)[3]);
    assert(announced_len(whole) == data.len());
    assert(whole.subrange(4, 4 + data.len() as int) =~= data);
    let part = frame(data).take(cut);
    if cut >= 4 {
        assert(part[0] == be32(n)[0] && part[1] == be32(n)[1] && part[2] == be32(n)[2] && part[3] == be32(n)[3]);
        assert(announced_len(part) == data.len());
    }
}

} // verus!
