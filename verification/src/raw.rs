//! Conversion of raw bytes into typed values.
//!
//! A decoding scheme such as [`LittleEndian`] or [`BigEndian`] reconstructs a
//! fixed-width value from the first `width` bytes of a slice. The
//! [`ConverterFromRaw`] trait is the capability the stream machinery is
//! generic over: a scheme has a fixed positive byte width, decoding succeeds
//! exactly when at least that many bytes are given, and only the leading
//! `width` bytes are read.

use vstd::prelude::*;

verus! {

/// Error returned by [`ConverterFromRaw::from_raw`] on conversion failure.
#[derive(Clone, Copy, Debug, PartialEq, Eq, Structural)]
pub enum RawConversionError {
    /// The input slice is shorter than the width of the target type.
    NotEnoughData,
}

/// A rule for reconstructing a value of type `T` from raw bytes.
///
/// Implemented by converter structs such as [`LittleEndian`] and
/// [`BigEndian`]. The width is a positive constant; `from_raw` fails if and
/// only if fewer than `width` bytes are supplied, and otherwise decodes the
/// value deterministically from the first `width` bytes.
pub trait ConverterFromRaw<T>: Sized {
    /// The number of bytes one encoded value occupies.
    spec fn spec_width() -> nat;

    /// The value encoded by the first `spec_width()` bytes of `raw`.
    spec fn spec_decode(raw: Seq<u8>) -> T
        recommends
            raw.len() == Self::spec_width(),
    ;

    /// Every scheme decodes values that are at least one byte wide.
    proof fn lemma_width_positive()
        ensures
            Self::spec_width() >= 1,
    ;

    /// The width of the encoded form, in bytes.
    fn width() -> (w: usize)
        ensures
            w == Self::spec_width(),
    ;

    /// Returns either the converted type from the raw input or an error.
    ///
    /// The input's length must be the same or longer than the width of the
    /// type itself; excess bytes are ignored.
    fn from_raw(raw: &[u8]) -> (r: Result<T, RawConversionError>)
        ensures
            raw@.len() >= Self::spec_width() ==> r == Ok::<T, RawConversionError>(
                Self::spec_decode(raw@.take(Self::spec_width() as int)),
            ),
            raw@.len() < Self::spec_width() ==> r == Err::<T, RawConversionError>(
                RawConversionError::NotEnoughData,
            ),
    ;
}

/// Raw-byte conversion based on the little-endian memory layout.
pub struct LittleEndian;

/// Raw-byte conversion based on the big-endian memory layout.
pub struct BigEndian;

/// The `u32` held by the first four bytes of `s`, least significant byte
/// first.
pub open spec fn le_u32_of(s: Seq<u8>) -> u32
    recommends
        s.len() >= 4,
{
    (s[0] as u32) | ((s[1] as u32) << 8) | ((s[2] as u32) << 16) | ((s[3] as u32) << 24)
}

/// The `i32` whose two's-complement bits are the first four bytes of `s`,
/// least significant byte first.
pub open spec fn le_i32_of(s: Seq<u8>) -> i32 {
    le_u32_of(s) as i32
}

/// The `u32` held by the first four bytes of `s`, most significant byte
/// first.
pub open spec fn be_u32_of(s: Seq<u8>) -> u32
    recommends
        s.len() >= 4,
{
    (s[3] as u32) | ((s[2] as u32) << 8) | ((s[1] as u32) << 16) | ((s[0] as u32) << 24)
}

/// The `i32` whose two's-complement bits are the first four bytes of `s`,
/// most significant byte first.
pub open spec fn be_i32_of(s: Seq<u8>) -> i32 {
    be_u32_of(s) as i32
}

/// The four-byte little-endian layout of `v`.
pub open spec fn le_bytes_of_i32(v: i32) -> Seq<u8> {
    let x = v as u32;
    seq![
        (x & 0xff) as u8,
        ((x >> 8) & 0xff) as u8,
        ((x >> 16) & 0xff) as u8,
        ((x >> 24) & 0xff) as u8,
    ]
}

/// The four-byte big-endian layout of `v`.
pub open spec fn be_bytes_of_i32(v: i32) -> Seq<u8> {
    let x = v as u32;
    seq![
        ((x >> 24) & 0xff) as u8,
        ((x >> 16) & 0xff) as u8,
        ((x >> 8) & 0xff) as u8,
        (x & 0xff) as u8,
    ]
}

/// Laying a value out in little-endian bytes and decoding those exact bytes
/// returns the original value.
pub proof fn lemma_le_i32_round_trip(v: i32)
    ensures
        le_bytes_of_i32(v).len() == 4,
        le_i32_of(le_bytes_of_i32(v)) == v,
{
    let x = v as u32;
    let s = le_bytes_of_i32(v);
    assert(s[0] == (x & 0xff) as u8);
    assert(s[1] == ((x >> 8) & 0xff) as u8);
    assert(s[2] == ((x >> 16) & 0xff) as u8);
    assert(s[3] == ((x >> 24) & 0xff) as u8);
    assert((((x & 0xff) as u8) as u32) | (((((x >> 8) & 0xff) as u8) as u32) << 8) | (((((x
        >> 16) & 0xff) as u8) as u32) << 16) | (((((x >> 24) & 0xff) as u8) as u32) << 24)
        == x) by (bit_vector);
    assert(le_u32_of(s) == x);
    assert(((v as u32) as i32) == v) by (bit_vector);
}

/// Laying a value out in big-endian bytes and decoding those exact bytes
/// returns the original value.
pub proof fn lemma_be_i32_round_trip(v: i32)
    ensures
        be_bytes_of_i32(v).len() == 4,
        be_i32_of(be_bytes_of_i32(v)) == v,
{
    let x = v as u32;
    let s = be_bytes_of_i32(v);
    assert(s[3] == (x & 0xff) as u8);
    assert(s[2] == ((x >> 8) & 0xff) as u8);
    assert(s[1] == ((x >> 16) & 0xff) as u8);
    assert(s[0] == ((x >> 24) & 0xff) as u8);
    assert((((x & 0xff) as u8) as u32) | (((((x >> 8) & 0xff) as u8) as u32) << 8) | (((((x
        >> 16) & 0xff) as u8) as u32) << 16) | (((((x >> 24) & 0xff) as u8) as u32) << 24)
        == x) by (bit_vector);
    assert(be_u32_of(s) == x);
    assert(((v as u32) as i32) == v) by (bit_vector);
}

impl ConverterFromRaw<i32> for LittleEndian {
    open spec fn spec_width() -> nat {
        4
    }

    open spec fn spec_decode(raw: Seq<u8>) -> i32 {
        le_i32_of(raw)
    }

    proof fn lemma_width_positive() {
    }

    fn width() -> (w: usize) {
        4
    }

    fn from_raw(raw: &[u8]) -> (r: Result<i32, RawConversionError>) {
        if raw.len() < 4 {
            return Err(RawConversionError::NotEnoughData);
        }
        let b0 = *vstd::slice::slice_index_get(raw, 0);
        let b1 = *vstd::slice::slice_index_get(raw, 1);
        let b2 = *vstd::slice::slice_index_get(raw, 2);
        let b3 = *vstd::slice::slice_index_get(raw, 3);
        let x = (b0 as u32) | ((b1 as u32) << 8) | ((b2 as u32) << 16) | ((b3 as u32) << 24);
        proof {
            let t = raw@.take(4);
            assert(t[0] == raw@[0] && t[1] == raw@[1] && t[2] == raw@[2] && t[3] == raw@[3]);
            assert(x == le_u32_of(t));
        }
        Ok(#[verifier::truncate] (x as i32))
    }
}

impl ConverterFromRaw<i32> for BigEndian {
    open spec fn spec_width() -> nat {
        4
    }

    open spec fn spec_decode(raw: Seq<u8>) -> i32 {
        be_i32_of(raw)
    }

    proof fn lemma_width_positive() {
    }

    fn width() -> (w: usize) {
        4
    }

    fn from_raw(raw: &[u8]) -> (r: Result<i32, RawConversionError>) {
        if raw.len() < 4 {
            return Err(RawConversionError::NotEnoughData);
        }
        let b0 = *vstd::slice::slice_index_get(raw, 0);
        let b1 = *vstd::slice::slice_index_get(raw, 1);
        let b2 = *vstd::slice::slice_index_get(raw, 2);
        let b3 = *vstd::slice::slice_index_get(raw, 3);
        let x = (b3 as u32) | ((b2 as u32) << 8) | ((b1 as u32) << 16) | ((b0 as u32) << 24);
        proof {
            let t = raw@.take(4);
            assert(t[0] == raw@[0] && t[1] == raw@[1] && t[2] == raw@[2] && t[3] == raw@[3]);
            assert(x == be_u32_of(t));
        }
        Ok(#[verifier::truncate] (x as i32))
    }
}

} // verus!
