//! BLAKE3 digests and the values derived from them.

use vstd::prelude::*;

verus! {

/// The BLAKE3 hash (32 bytes) of `data`.
pub uninterp spec fn blake3_digest(data: Seq<u8>) -> Seq<u8>;

/// `blake3::hash`: the 32-byte BLAKE3 digest of `data`, a function of the
/// data alone.
#[verifier::external_body]
pub(crate) fn blake3_hash(data: &[u8]) -> (r: [u8; 32])
    ensures
        r@ == blake3_digest(data@),
{
    *blake3::hash(data).as_bytes()
}

/// Little-endian value of the first eight bytes of `b`.
pub open spec fn le_u64(b: Seq<u8>) -> u64 {
    (b[0] as int + b[1] as int * 0x100 + b[2] as int * 0x1_0000 + b[3] as int * 0x100_0000
        + b[4] as int * 0x1_0000_0000 + b[5] as int * 0x100_0000_0000 + b[6] as int * 0x1_0000_0000_0000
        + b[7] as int * 0x100_0000_0000_0000) as u64
}

/// Ring position of a key: the first eight digest bytes, little endian.
pub open spec fn point_of(key: Seq<u8>) -> u64 {
    le_u64(blake3_digest(key))
}

/// Ring position of `key`.
pub fn point_for_key(key: &[u8]) -> (r: u64)
    ensures
        r == point_of(key@),
{
    let h = blake3_hash(key);
    let ghost b = h@;
    (h[0] as u64) + (h[1] as u64) * 0x100 + (h[2] as u64) * 0x1_0000 + (h[3] as u64) * 0x100_0000
        + (h[4] as u64) * 0x1_0000_0000 + (h[5] as u64) * 0x100_0000_0000 + (h[6] as u64)
        * 0x1_0000_0000_0000 + (h[7] as u64) * 0x100_0000_0000_0000
}

/// Lowercase hexadecimal digit of `v` (`v < 16`).
pub open spec fn hex_digit(v: u8) -> u8 {
    if v < 10 {
        (48 + v) as u8
    } else {
        (87 + v) as u8
    }
}

/// Lowercase hex encoding of `b`, two digits per byte.
pub open spec fn hex_bytes(b: Seq<u8>) -> Seq<u8>
    decreases b.len(),
{
    if b.len() == 0 {
        seq![]
    } else {
        hex_bytes(b.drop_last()).push(hex_digit(b.last() / 16)).push(hex_digit(b.last() % 16))
    }
}

/// Stable 16-hex-character slug of a (canonical) base path: the first eight
/// digest bytes in lowercase hex.
pub open spec fn slug_bytes(base_path: Seq<u8>) -> Seq<u8> {
    hex_bytes(Seq::new(8, |i: int| blake3_digest(base_path)[i]))
}

/// Stable slug of a base path (given as the bytes of its canonical form).
pub fn base_path_slug(base_path: &[u8]) -> (r: String)
    ensures
        r@ == slug_bytes(base_path@).map_values(|b: u8| b as char),
        r@.len() == 16,
{
    let h = blake3_hash(base_path);
    let mut out: Vec<u8> = Vec::new();
    let mut i: usize = 0;
    while i < 8
        invariant
            i <= 8,
            h@ == blake3_digest(base_path@),
            h@.len() == 32,
            out@ == hex_bytes(h@.take(i as int)),
            out@.len() == 2 * i,
            forall|j: int| 0 <= j < out@.len() ==> #[trigger] out@[j] < 128,
        decreases 8 - i,
    {
        let b = h[i];
        let hi = b / 16;
        let lo = b % 16;
        out.push(if hi < 10 { 48 + hi } else { 87 + hi });
        out.push(if lo < 10 { 48 + lo } else { 87 + lo });
        proof {
            assert(h@.take(i + 1).drop_last() =~= h@.take(i as int));
        }
        i = i + 1;
    }
    proof {
        assert(h@.take(8) =~= Seq::new(8, |i: int| blake3_digest(base_path@)[i]));
        crate::text::lemma_ascii_round_trip(out@);
    }
    crate::text::string_from_utf8(out.as_slice())
}

} // verus!
