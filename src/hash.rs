use vstd::prelude::*;

verus! {

/// The four bytes of `v`, least significant first.
pub open spec fn u32_le_bytes(v: u32) -> Seq<u8> {
    seq![v as u8, (v >> 8u32) as u8, (v >> 16u32) as u8, (v >> 24u32) as u8]
}

/// The eight bytes of `v`, least significant first.
pub open spec fn u64_le_bytes(v: u64) -> Seq<u8> {
    seq![
        v as u8,
        (v >> 8u64) as u8,
        (v >> 16u64) as u8,
        (v >> 24u64) as u8,
        (v >> 32u64) as u8,
        (v >> 40u64) as u8,
        (v >> 48u64) as u8,
        (v >> 56u64) as u8,
    ]
}

/// The compact encoding of `v`: a single byte below 0xfd, otherwise a prefix
/// byte (0xfd, 0xfe, 0xff) followed by 2, 4 or 8 little-endian bytes.
pub open spec fn varint_bytes(v: u64) -> Seq<u8> {
    if v <= 0xfc {
        seq![v as u8]
    } else if v <= 0xffff {
        seq![0xfdu8, v as u8, (v >> 8u64) as u8]
    } else if v <= 0xffff_ffff {
        seq![0xfeu8] + u32_le_bytes(v as u32)
    } else {
        seq![0xffu8] + u64_le_bytes(v)
    }
}

/// The SHA-256 digest of a byte sequence.
pub uninterp spec fn sha256_of(data: Seq<u8>) -> Seq<u8>;

/// Relies on `sha2::Sha256::digest` (through `sha2::Digest`): the 32-byte
/// SHA-256 digest of the input, which depends on the input alone.
#[verifier::external_body]
pub fn sha256_sum(input: &[u8]) -> (r: Vec<u8>)
    ensures
        r@ == sha256_of(input@),
        r@.len() == 32,
{
    <sha2::Sha256 as sha2::Digest>::digest(input).to_vec()
}

/// Appends the four little-endian bytes of `val`.
pub fn push_u32_le(buf: Vec<u8>, val: u32) -> (r: Vec<u8>)
    ensures
        r@ == buf@ + u32_le_bytes(val),
{
    let ghost start = buf@;
    let mut buf = buf;
    buf.push(val as u8);
    buf.push((val >> 8) as u8);
    buf.push((val >> 16) as u8);
    buf.push((val >> 24) as u8);
    assert(buf@ =~= start + u32_le_bytes(val));
    buf
}

/// Appends the eight little-endian bytes of `val`.
pub fn push_u64_le(buf: Vec<u8>, val: u64) -> (r: Vec<u8>)
    ensures
        r@ == buf@ + u64_le_bytes(val),
{
    let ghost start = buf@;
    let mut buf = buf;
    buf.push(val as u8);
    buf.push((val >> 8) as u8);
    buf.push((val >> 16) as u8);
    buf.push((val >> 24) as u8);
    buf.push((val >> 32) as u8);
    buf.push((val >> 40) as u8);
    buf.push((val >> 48) as u8);
    buf.push((val >> 56) as u8);
    assert(buf@ =~= start + u64_le_bytes(val));
    buf
}

/// Appends the compact encoding of `val`.
pub fn push_vi_le(buf: Vec<u8>, val: u64) -> (r: Vec<u8>)
    ensures
        r@ == buf@ + varint_bytes(val),
{
    let ghost start = buf@;
    let mut buf = buf;
    if val <= 0xfc {
        buf.push(val as u8);
    } else if val <= 0xffff {
        buf.push(0xfd);
        buf.push(val as u8);
        buf.push((val >> 8) as u8);
    } else if val <= 0xffff_ffff {
        buf.push(0xfe);
        let r = push_u32_le(buf, val as u32);
        assert(r@ =~= start + varint_bytes(val));
        return r;
    } else {
        buf.push(0xff);
        let r = push_u64_le(buf, val);
        assert(r@ =~= start + varint_bytes(val));
        return r;
    }
    assert(buf@ =~= start + varint_bytes(val));
    buf
}

/// The identifier that the digest `d` stands for: its bytes in reverse order,
/// since identifiers are read as little-endian numbers.
pub fn identity_from_digest(d: &Vec<u8>) -> (r: Vec<u8>)
    ensures
        r@ == d@.reverse(),
{
    let mut r: Vec<u8> = Vec::new();
    let n = d.len();
    let mut i: usize = 0;
    while i < n
        invariant
            n == d@.len(),
            i <= n,
            r@ == d@.reverse().subrange(0, i as int),
        decreases n - i,
    {
        r.push(d[n - 1 - i]);
        i = i + 1;
        assert(r@ =~= d@.reverse().subrange(0, i as int));
    }
    assert(r@ =~= d@.reverse());
    r
}

/// Things that have a canonical identifier.
pub trait Hashable {
    /// The identifier, as a byte sequence.
    spec fn identity(&self) -> Seq<u8>;

    fn to_hash(&self) -> (r: Vec<u8>)
        ensures
            r@ == self.identity(),
    ;
}

} // verus!
