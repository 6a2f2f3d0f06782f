//! Byte-level primitives of the wire format: big-endian integer fields, the
//! 3-byte little-endian sequence numbers of datagrams, and the offline magic
//! sentinel. Each encoding comes with its decoding and a round-trip lemma.

use vstd::prelude::*;

verus! {

/// Big-endian encoding of a 16-bit field.
pub open spec fn spec_u16_be(x: u16) -> Seq<u8> {
    seq![((x >> 8) & 0xff) as u8, (x & 0xff) as u8]
}

/// Decoding of a big-endian 16-bit field.
pub open spec fn spec_u16_from_be(s: Seq<u8>) -> u16
    recommends
        s.len() == 2,
{
    (((s[0] as u16) << 8) | (s[1] as u16)) as u16
}

pub proof fn lemma_u16_be_round_trip(x: u16)
    ensures
        spec_u16_be(x).len() == 2,
        spec_u16_from_be(spec_u16_be(x)) == x,
{
    assert((x >> 8) & 0xff < 256 && x & 0xff < 256) by (bit_vector);
    assert(((((x >> 8) & 0xff) as u16) << 8 | ((x & 0xff) as u16)) == x) by (bit_vector);
}

/// Little-endian encoding of a 24-bit field, as used for datagram sequence
/// numbers; the value is carried in a `u32` below `0x1000000`.
pub open spec fn spec_u24_le(x: u32) -> Seq<u8> {
    seq![(x & 0xff) as u8, ((x >> 8) & 0xff) as u8, ((x >> 16) & 0xff) as u8]
}

/// Decoding of a little-endian 24-bit field; the result is below `0x1000000`.
pub open spec fn spec_u24_from_le(s: Seq<u8>) -> u32
    recommends
        s.len() == 3,
{
    ((s[0] as u32) | ((s[1] as u32) << 8) | ((s[2] as u32) << 16)) as u32
}

pub proof fn lemma_u24_le_round_trip(x: u32)
    requires
        x < 0x1000000,
    ensures
        spec_u24_le(x).len() == 3,
        spec_u24_from_le(spec_u24_le(x)) == x,
{
    assert(x & 0xff < 256 && (x >> 8) & 0xff < 256 && (x >> 16) & 0xff < 256) by (bit_vector);
    assert(((x & 0xff) as u32 | (((x >> 8) & 0xff) as u32) << 8 | (((x >> 16) & 0xff) as u32)
        << 16) == x) by (bit_vector)
        requires
            x < 0x1000000,
    ;
}

pub proof fn lemma_u24_from_le_bound(s: Seq<u8>)
    requires
        s.len() == 3,
    ensures
        spec_u24_from_le(s) < 0x1000000,
{
    let b0 = s[0];
    let b1 = s[1];
    let b2 = s[2];
    assert(((b0 as u32) | ((b1 as u32) << 8) | ((b2 as u32) << 16)) < 0x1000000) by (bit_vector);
}

/// Big-endian encoding of a 32-bit field.
pub open spec fn spec_u32_be(x: u32) -> Seq<u8> {
    seq![
        ((x >> 24) & 0xff) as u8,
        ((x >> 16) & 0xff) as u8,
        ((x >> 8) & 0xff) as u8,
        (x & 0xff) as u8,
    ]
}

/// Decoding of a big-endian 32-bit field.
pub open spec fn spec_u32_from_be(s: Seq<u8>) -> u32
    recommends
        s.len() == 4,
{
    (((s[0] as u32) << 24) | ((s[1] as u32) << 16) | ((s[2] as u32) << 8) | (s[3] as u32)) as u32
}

pub proof fn lemma_u32_be_round_trip(x: u32)
    ensures
        spec_u32_be(x).len() == 4,
        spec_u32_from_be(spec_u32_be(x)) == x,
{
    assert((x >> 24) & 0xff < 256 && (x >> 16) & 0xff < 256 && (x >> 8) & 0xff < 256 && x & 0xff
        < 256) by (bit_vector);
    assert(((((x >> 24) & 0xff) as u32) << 24 | (((x >> 16) & 0xff) as u32) << 16 | (((x >> 8)
        & 0xff) as u32) << 8 | ((x & 0xff) as u32)) == x) by (bit_vector);
}

/// Big-endian encoding of a 64-bit field (timestamps and peer identifiers).
pub open spec fn spec_u64_be(x: u64) -> Seq<u8> {
    seq![
        ((x >> 56) & 0xff) as u8,
        ((x >> 48) & 0xff) as u8,
        ((x >> 40) & 0xff) as u8,
        ((x >> 32) & 0xff) as u8,
        ((x >> 24) & 0xff) as u8,
        ((x >> 16) & 0xff) as u8,
        ((x >> 8) & 0xff) as u8,
        (x & 0xff) as u8,
    ]
}

/// Decoding of a big-endian 64-bit field.
pub open spec fn spec_u64_from_be(s: Seq<u8>) -> u64
    recommends
        s.len() == 8,
{
    (((s[0] as u64) << 56) | ((s[1] as u64) << 48) | ((s[2] as u64) << 40) | ((s[3] as u64) << 32)
        | ((s[4] as u64) << 24) | ((s[5] as u64) << 16) | ((s[6] as u64) << 8) | (s[7] as u64)) as u64
}

pub proof fn lemma_u64_be_round_trip(x: u64)
    ensures
        spec_u64_be(x).len() == 8,
        spec_u64_from_be(spec_u64_be(x)) == x,
{
    assert((x >> 56) & 0xff < 256 && (x >> 48) & 0xff < 256 && (x >> 40) & 0xff < 256 && (x >> 32)
        & 0xff < 256 && (x >> 24) & 0xff < 256 && (x >> 16) & 0xff < 256 && (x >> 8) & 0xff < 256
        && x & 0xff < 256) by (bit_vector);
    assert(((((x >> 56) & 0xff) as u64) << 56 | (((x >> 48) & 0xff) as u64) << 48 | (((x >> 40)
        & 0xff) as u64) << 40 | (((x >> 32) & 0xff) as u64) << 32 | (((x >> 24) & 0xff) as u64)
        << 24 | (((x >> 16) & 0xff) as u64) << 16 | (((x >> 8) & 0xff) as u64) << 8 | ((x
        & 0xff) as u64)) == x) by (bit_vector);
}

/// The offline message sentinel: every offline discovery packet carries these
/// sixteen bytes, and decoding rejects a packet without them.
pub open spec fn spec_magic() -> Seq<u8> {
    seq![
        0x00u8,
        0xffu8,
        0xffu8,
        0x00u8,
        0xfeu8,
        0xfeu8,
        0xfeu8,
        0xfeu8,
        0xfdu8,
        0xfdu8,
        0xfdu8,
        0xfdu8,
        0x12u8,
        0x34u8,
        0x56u8,
        0x78u8,
    ]
}

pub fn push_u16_be(out: &mut Vec<u8>, x: u16)
    ensures
        final(out)@ == old(out)@ + spec_u16_be(x),
{
    out.push(((x >> 8) & 0xff) as u8);
    out.push((x & 0xff) as u8);
    assert(out@ =~= old(out)@ + spec_u16_be(x));
}

pub fn push_u24_le(out: &mut Vec<u8>, x: u32)
    ensures
        final(out)@ == old(out)@ + spec_u24_le(x),
{
    out.push((x & 0xff) as u8);
    out.push(((x >> 8) & 0xff) as u8);
    out.push(((x >> 16) & 0xff) as u8);
    assert(out@ =~= old(out)@ + spec_u24_le(x));
}

pub fn push_u32_be(out: &mut Vec<u8>, x: u32)
    ensures
        final(out)@ == old(out)@ + spec_u32_be(x),
{
    out.push(((x >> 24) & 0xff) as u8);
    out.push(((x >> 16) & 0xff) as u8);
    out.push(((x >> 8) & 0xff) as u8);
    out.push((x & 0xff) as u8);
    assert(out@ =~= old(out)@ + spec_u32_be(x));
}

pub fn push_u64_be(out: &mut Vec<u8>, x: u64)
    ensures
        final(out)@ == old(out)@ + spec_u64_be(x),
{
    out.push(((x >> 56) & 0xff) as u8);
    out.push(((x >> 48) & 0xff) as u8);
    out.push(((x >> 40) & 0xff) as u8);
    out.push(((x >> 32) & 0xff) as u8);
    out.push(((x >> 24) & 0xff) as u8);
    out.push(((x >> 16) & 0xff) as u8);
    out.push(((x >> 8) & 0xff) as u8);
    out.push((x & 0xff) as u8);
    assert(out@ =~= old(out)@ + spec_u64_be(x));
}

pub fn push_magic(out: &mut Vec<u8>)
    ensures
        final(out)@ == old(out)@ + spec_magic(),
{
    out.push(0x00);
    out.push(0xff);
    out.push(0xff);
    out.push(0x00);
    out.push(0xfe);
    out.push(0xfe);
    out.push(0xfe);
    out.push(0xfe);
    out.push(0xfd);
    out.push(0xfd);
    out.push(0xfd);
    out.push(0xfd);
    out.push(0x12);
    out.push(0x34);
    out.push(0x56);
    out.push(0x78);
    assert(out@ =~= old(out)@ + spec_magic());
}

/// Appends all of `data` to `out`.
#[verifier::loop_isolation(false)]
pub fn push_bytes(out: &mut Vec<u8>, data: &Vec<u8>)
    ensures
        final(out)@ == old(out)@ + data@,
{
    let mut i: usize = 0;
    while i < data.len()
        invariant
            i <= data@.len(),
            out@ == old(out)@ + data@.subrange(0, i as int),
        decreases data@.len() - i,
    {
        out.push(data[i]);
        i = i + 1;
        assert(out@ =~= old(out)@ + data@.subrange(0, i as int));
    }
    assert(data@.subrange(0, data@.len() as int) =~= data@);
}

/// Appends `n` zero bytes to `out` (the padding of MTU discovery packets).
#[verifier::loop_isolation(false)]
pub fn push_zeros(out: &mut Vec<u8>, n: usize)
    ensures
        final(out)@ == old(out)@ + Seq::new(n as nat, |i: int| 0u8),
{
    let mut i: usize = 0;
    while i < n
        invariant
            i <= n,
            out@ == old(out)@ + Seq::new(i as nat, |j: int| 0u8),
        decreases n - i,
    {
        out.push(0u8);
        i = i + 1;
        assert(out@ =~= old(out)@ + Seq::new(i as nat, |j: int| 0u8));
    }
}

pub fn read_u16_be(v: &Vec<u8>, off: usize) -> (x: u16)
    requires
        off + 2 <= v.len(),
    ensures
        x == spec_u16_from_be(v@.subrange(off as int, off as int + 2)),
{
    let x = ((v[off] as u16) << 8) | (v[off + 1] as u16);
    proof {
        let s = v@.subrange(off as int, off as int + 2);
        assert(s[0] == v@[off as int] && s[1] == v@[off as int + 1]);
    }
    x
}

pub fn read_u24_le(v: &Vec<u8>, off: usize) -> (x: u32)
    requires
        off + 3 <= v.len(),
    ensures
        x == spec_u24_from_le(v@.subrange(off as int, off as int + 3)),
        x < 0x1000000,
{
    let x = (v[off] as u32) | ((v[off + 1] as u32) << 8) | ((v[off + 2] as u32) << 16);
    proof {
        let s = v@.subrange(off as int, off as int + 3);
        assert(s[0] == v@[off as int] && s[1] == v@[off as int + 1] && s[2] == v@[off as int + 2]);
        lemma_u24_from_le_bound(s);
    }
    x
}

pub fn read_u32_be(v: &Vec<u8>, off: usize) -> (x: u32)
    requires
        off + 4 <= v.len(),
    ensures
        x == spec_u32_from_be(v@.subrange(off as int, off as int + 4)),
{
    let x = ((v[off] as u32) << 24) | ((v[off + 1] as u32) << 16) | ((v[off + 2] as u32) << 8) | (
    v[off + 3] as u32);
    proof {
        let s = v@.subrange(off as int, off as int + 4);
        assert(s[0] == v@[off as int] && s[1] == v@[off as int + 1] && s[2] == v@[off as int + 2]
            && s[3] == v@[off as int + 3]);
    }
    x
}

pub fn read_u64_be(v: &Vec<u8>, off: usize) -> (x: u64)
    requires
        off + 8 <= v.len(),
    ensures
        x == spec_u64_from_be(v@.subrange(off as int, off as int + 8)),
{
    let x = ((v[off] as u64) << 56) | ((v[off + 1] as u64) << 48) | ((v[off + 2] as u64) << 40) | (
    (v[off + 3] as u64) << 32) | ((v[off + 4] as u64) << 24) | ((v[off + 5] as u64) << 16) | ((v[off
        + 6] as u64) << 8) | (v[off + 7] as u64);
    proof {
        let s = v@.subrange(off as int, off as int + 8);
        assert(s[0] == v@[off as int] && s[1] == v@[off as int + 1] && s[2] == v@[off as int + 2]
            && s[3] == v@[off as int + 3] && s[4] == v@[off as int + 4] && s[5] == v@[off as int
            + 5] && s[6] == v@[off as int + 6] && s[7] == v@[off as int + 7]);
    }
    x
}

/// Copies `v[start..end]` into a fresh vector.
#[verifier::loop_isolation(false)]
pub fn read_bytes(v: &Vec<u8>, start: usize, end: usize) -> (r: Vec<u8>)
    requires
        start <= end,
        end <= v.len(),
    ensures
        r@ == v@.subrange(start as int, end as int),
{
    let mut r: Vec<u8> = Vec::new();
    let mut i: usize = start;
    while i < end
        invariant
            start <= i <= end,
            r@ == v@.subrange(start as int, i as int),
        decreases end - i,
    {
        r.push(v[i]);
        i = i + 1;
        assert(r@ =~= v@.subrange(start as int, i as int));
    }
    r
}

/// A peer address as carried on the wire: a version-4 IP and a port, held as
/// plain values so the codec can be reasoned about byte for byte.
#[derive(Debug, Clone, Copy, PartialEq, Eq, Structural)]
pub struct Address {
    pub ip0: u8,
    pub ip1: u8,
    pub ip2: u8,
    pub ip3: u8,
    pub port: u16,
}

/// The 7-byte wire form of an address: the version tag `4`, the four IP
/// octets, then the port big-endian.
pub open spec fn spec_address(a: Address) -> Seq<u8> {
    seq![4u8, a.ip0, a.ip1, a.ip2, a.ip3] + spec_u16_be(a.port)
}

/// Decoding of a 7-byte address field; the version tag must be `4`.
pub open spec fn spec_address_from(s: Seq<u8>) -> Option<Address>
    recommends
        s.len() == 7,
{
    if s[0] == 4u8 {
        Some(
            Address {
                ip0: s[1],
                ip1: s[2],
                ip2: s[3],
                ip3: s[4],
                port: spec_u16_from_be(s.subrange(5, 7)),
            },
        )
    } else {
        None
    }
}

pub proof fn lemma_address_round_trip(a: Address)
    ensures
        spec_address(a).len() == 7,
        spec_address_from(spec_address(a)) == Some(a),
{
    lemma_u16_be_round_trip(a.port);
    let s = spec_address(a);
    assert(s.subrange(5, 7) =~= spec_u16_be(a.port));
}

pub fn push_address(out: &mut Vec<u8>, a: &Address)
    ensures
        final(out)@ == old(out)@ + spec_address(*a),
{
    out.push(4u8);
    out.push(a.ip0);
    out.push(a.ip1);
    out.push(a.ip2);
    out.push(a.ip3);
    push_u16_be(out, a.port);
    assert(out@ =~= old(out)@ + spec_address(*a));
}

pub fn read_address(v: &Vec<u8>, off: usize) -> (r: Option<Address>)
    requires
        off + 7 <= v.len(),
    ensures
        r == spec_address_from(v@.subrange(off as int, off as int + 7)),
{
    proof {
        let s = v@.subrange(off as int, off as int + 7);
        assert(forall|i: int| 0 <= i < 7 ==> s[i] == v@[off as int + i]);
        assert(s.subrange(5, 7) =~= v@.subrange(off as int + 5, off as int + 7));
    }
    if v[off] == 4u8 {
        let port = read_u16_be(v, off + 5);
        Some(Address { ip0: v[off + 1], ip1: v[off + 2], ip2: v[off + 3], ip3: v[off + 4], port })
    } else {
        None
    }
}

/// Tests whether the sixteen magic bytes stand at `off`.
pub fn magic_matches(v: &Vec<u8>, off: usize) -> (r: bool)
    requires
        off + 16 <= v.len(),
    ensures
        r == (v@.subrange(off as int, off as int + 16) == spec_magic()),
{
    let r = v[off] == 0x00 && v[off + 1] == 0xff && v[off + 2] == 0xff && v[off + 3] == 0x00
        && v[off + 4] == 0xfe && v[off + 5] == 0xfe && v[off + 6] == 0xfe && v[off + 7] == 0xfe
        && v[off + 8] == 0xfd && v[off + 9] == 0xfd && v[off + 10] == 0xfd && v[off + 11] == 0xfd
        && v[off + 12] == 0x12 && v[off + 13] == 0x34 && v[off + 14] == 0x56 && v[off + 15] == 0x78;
    proof {
        let s = v@.subrange(off as int, off as int + 16);
        assert(forall|i: int| 0 <= i < 16 ==> s[i] == v@[off as int + i]);
        if r {
            assert(s =~= spec_magic());
        } else {
            if s == spec_magic() {
                assert(s[0] == 0x00 && s[1] == 0xff && s[2] == 0xff && s[3] == 0x00 && s[4] == 0xfe
                    && s[5] == 0xfe && s[6] == 0xfe && s[7] == 0xfe && s[8] == 0xfd && s[9] == 0xfd
                    && s[10] == 0xfd && s[11] == 0xfd && s[12] == 0x12 && s[13] == 0x34 && s[14]
                    == 0x56 && s[15] == 0x78);
            }
        }
    }
    r
}

} // verus!
