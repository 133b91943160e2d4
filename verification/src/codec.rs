//! Canonical image codec: a self-describing, lossless container for raw
//! RGBA pixel buffers.
//!
//! The canonical form is a fixed four-byte tag, the width and height as
//! little-endian 32-bit values, then the pixel bytes, row-major RGBA. Both
//! directions are total functions of their inputs, so encoding after
//! decoding reproduces the input byte for byte.

use vstd::prelude::*;
use vstd::bytes::{
    lemma_auto_spec_u32_to_from_le_bytes, spec_u32_from_le_bytes, spec_u32_to_le_bytes,
    u32_from_le_bytes, u32_to_le_bytes,
};
use vstd::slice::slice_subrange;

verus! {

/// Why an image buffer could not be encoded or decoded.
#[derive(Debug, Clone, Copy, PartialEq, Eq, Structural)]
pub enum CodecError {
    /// The pixel buffer length does not equal width * height * 4.
    SizeMismatch,
    /// The byte stream does not open with the canonical header.
    Malformed,
    /// The encoded form would not fit in memory.
    TooLarge,
}

/// The canonical container tag.
pub open spec fn magic_bytes() -> Seq<u8> {
    seq![0x43u8, 0x4cu8, 0x49u8, 0x50u8]
}

/// Canonical bytes of an RGBA buffer with its dimensions.
pub open spec fn encode_spec(rgba: Seq<u8>, width: u32, height: u32) -> Seq<u8> {
    magic_bytes() + spec_u32_to_le_bytes(width) + spec_u32_to_le_bytes(height) + rgba
}

/// What decoding yields: the pixel bytes and dimensions, or nothing when
/// the input is not canonical.
pub open spec fn decode_spec(data: Seq<u8>) -> Option<(Seq<u8>, u32, u32)> {
    if data.len() < 12 || data.subrange(0, 4) != magic_bytes() {
        None
    } else {
        let w = spec_u32_from_le_bytes(data.subrange(4, 8));
        let h = spec_u32_from_le_bytes(data.subrange(8, 12));
        let px = data.subrange(12, data.len() as int);
        if px.len() == w * h * 4 {
            Some((px, w, h))
        } else {
            None
        }
    }
}

/// Decoding inverts encoding: a well-sized buffer comes back unchanged.
pub proof fn lemma_decode_encode(rgba: Seq<u8>, width: u32, height: u32)
    requires
        rgba.len() == width * height * 4,
    ensures
        decode_spec(encode_spec(rgba, width, height)) == Some((rgba, width, height)),
{
    lemma_auto_spec_u32_to_from_le_bytes();
    let e = encode_spec(rgba, width, height);
    assert(e.subrange(0, 4) =~= magic_bytes());
    assert(e.subrange(4, 8) =~= spec_u32_to_le_bytes(width));
    assert(e.subrange(8, 12) =~= spec_u32_to_le_bytes(height));
    assert(e.subrange(12, e.len() as int) =~= rgba);
}

/// Encoding inverts decoding: any byte stream that decodes re-encodes to
/// itself, byte for byte.
pub proof fn lemma_encode_decode(data: Seq<u8>)
    requires
        decode_spec(data) is Some,
    ensures
        ({
            let (px, w, h) = decode_spec(data)->Some_0;
            encode_spec(px, w, h) == data
        }),
{
    lemma_auto_spec_u32_to_from_le_bytes();
    let (px, w, h) = decode_spec(data)->Some_0;
    assert(spec_u32_to_le_bytes(w) == data.subrange(4, 8));
    assert(spec_u32_to_le_bytes(h) == data.subrange(8, 12));
    assert(encode_spec(px, w, h) =~= data);
}

/// Encode an RGBA buffer into the canonical container.
///
/// Succeeds exactly when the buffer length equals width * height * 4 and
/// the container fits in memory; a wrong-sized buffer is reported as
/// `SizeMismatch` and never encoded.
pub fn encode(rgba: &Vec<u8>, width: u32, height: u32) -> (r: Result<Vec<u8>, CodecError>)
    ensures
        match r {
            Ok(v) => rgba@.len() == width * height * 4 && v@ == encode_spec(rgba@, width, height),
            Err(CodecError::SizeMismatch) => rgba@.len() != width * height * 4,
            Err(CodecError::TooLarge) => rgba@.len() == width * height * 4 && rgba@.len() + 12
                > usize::MAX,
            Err(CodecError::Malformed) => false,
        },
{
    proof {
        vstd::arithmetic::mul::lemma_mul_upper_bound(
            width as int,
            0xffff_ffff as int,
            height as int,
            0xffff_ffff as int,
        );
    }
    let expected: u128 = (width as u128) * (height as u128) * 4;
    if (rgba.len() as u128) != expected {
        return Err(CodecError::SizeMismatch);
    }
    if rgba.len() > usize::MAX - 12 {
        return Err(CodecError::TooLarge);
    }
    let mut out: Vec<u8> = Vec::new();
    out.push(0x43);
    out.push(0x4c);
    out.push(0x49);
    out.push(0x50);
    let mut wb = u32_to_le_bytes(width);
    let mut hb = u32_to_le_bytes(height);
    out.append(&mut wb);
    out.append(&mut hb);
    let mut i: usize = 0;
    while i < rgba.len()
        invariant
            i <= rgba@.len(),
            out@ == magic_bytes() + spec_u32_to_le_bytes(width) + spec_u32_to_le_bytes(height)
                + rgba@.subrange(0, i as int),
        decreases rgba@.len() - i,
    {
        out.push(rgba[i]);
        assert(out@ =~= magic_bytes() + spec_u32_to_le_bytes(width) + spec_u32_to_le_bytes(height)
            + rgba@.subrange(0, i + 1));
        i += 1;
    }
    assert(out@ =~= encode_spec(rgba@, width, height));
    Ok(out)
}

/// Decode a canonical container back into pixels and dimensions.
///
/// Succeeds exactly on canonical input; a stream that does not open with
/// the tag is `Malformed`, and one whose pixel section disagrees with the
/// declared dimensions is a `SizeMismatch`.
pub fn decode(data: &Vec<u8>) -> (r: Result<(Vec<u8>, u32, u32), CodecError>)
    ensures
        match r {
            Ok((px, w, h)) => decode_spec(data@) == Some((px@, w, h)),
            Err(CodecError::Malformed) => data@.len() < 12 || data@.subrange(0, 4)
                != magic_bytes(),
            Err(CodecError::SizeMismatch) => data@.len() >= 12 && data@.subrange(0, 4)
                == magic_bytes() && decode_spec(data@) is None,
            Err(CodecError::TooLarge) => false,
        },
{
    if data.len() < 12 {
        return Err(CodecError::Malformed);
    }
    if !(data[0] == 0x43 && data[1] == 0x4c && data[2] == 0x49 && data[3] == 0x50) {
        assert(data@.subrange(0, 4) != magic_bytes()) by {
            if data@.subrange(0, 4) == magic_bytes() {
                assert(data@.subrange(0, 4)[0] == 0x43 && data@.subrange(0, 4)[1] == 0x4c
                    && data@.subrange(0, 4)[2] == 0x49 && data@.subrange(0, 4)[3] == 0x50);
            }
        }
        return Err(CodecError::Malformed);
    }
    assert(data@.subrange(0, 4) =~= magic_bytes());
    let w = u32_from_le_bytes(slice_subrange(data.as_slice(), 4, 8));
    let h = u32_from_le_bytes(slice_subrange(data.as_slice(), 8, 12));
    proof {
        vstd::arithmetic::mul::lemma_mul_upper_bound(
            w as int,
            0xffff_ffff as int,
            h as int,
            0xffff_ffff as int,
        );
    }
    let expected: u128 = (w as u128) * (h as u128) * 4;
    if ((data.len() - 12) as u128) != expected {
        return Err(CodecError::SizeMismatch);
    }
    let mut px: Vec<u8> = Vec::new();
    let mut i: usize = 12;
    while i < data.len()
        invariant
            12 <= i <= data@.len(),
            px@ == data@.subrange(12, i as int),
        decreases data@.len() - i,
    {
        px.push(data[i]);
        assert(px@ =~= data@.subrange(12, i + 1));
        i += 1;
    }
    assert(px@ =~= data@.subrange(12, data@.len() as int));
    Ok((px, w, h))
}

} // verus!
