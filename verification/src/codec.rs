use vstd::prelude::*;

use crate::error::NativeError;

verus! {

/// The codec catalog: every codec this format knows, with a stable one-byte
/// identifier (see `codec_code`).
///
/// `Plain`, `Lz4`, `Zstd` and `Snappy` are the generic byte codecs: they act on
/// the raw little-endian bytes of a page and are consumed as opaque block
/// compressors. `Plain` stores the bytes unchanged; this build provides no
/// other generic codec, and the other three identifiers are reserved in the
/// catalog so that their codes stay stable.
/// The remaining codecs are type-specialized.
#[derive(Clone, Copy, Debug, PartialEq, Eq, Structural)]
pub enum Codec {
    Plain,
    Lz4,
    Zstd,
    Snappy,
    Rle,
    Dict,
    OneValue,
    Freq,
    Bitpacking,
    Delta,
    DeltaBitpacking,
}

/// The stable identifier byte of each codec.
pub open spec fn codec_code(c: Codec) -> u8 {
    match c {
        Codec::Plain => 0,
        Codec::Lz4 => 1,
        Codec::Zstd => 2,
        Codec::Snappy => 3,
        Codec::Rle => 10,
        Codec::Dict => 11,
        Codec::OneValue => 12,
        Codec::Freq => 13,
        Codec::Bitpacking => 14,
        Codec::Delta => 15,
        Codec::DeltaBitpacking => 16,
    }
}

/// The codec, if any, whose identifier is `code`.
pub open spec fn codec_of_code(code: u8) -> Option<Codec> {
    if code == 0 {
        Some(Codec::Plain)
    } else if code == 1 {
        Some(Codec::Lz4)
    } else if code == 2 {
        Some(Codec::Zstd)
    } else if code == 3 {
        Some(Codec::Snappy)
    } else if code == 10 {
        Some(Codec::Rle)
    } else if code == 11 {
        Some(Codec::Dict)
    } else if code == 12 {
        Some(Codec::OneValue)
    } else if code == 13 {
        Some(Codec::Freq)
    } else if code == 14 {
        Some(Codec::Bitpacking)
    } else if code == 15 {
        Some(Codec::Delta)
    } else if code == 16 {
        Some(Codec::DeltaBitpacking)
    } else {
        Option::None
    }
}

/// Whether `c` is a generic byte codec (as opposed to a type-specialized one).
pub open spec fn is_generic(c: Codec) -> bool {
    c == Codec::Plain || c == Codec::Lz4 || c == Codec::Zstd || c == Codec::Snappy
}

impl Codec {
    /// Returns the stable identifier byte of this codec.
    pub fn to_code(&self) -> (r: u8)
        ensures
            r == codec_code(*self),
    {
        match self {
            Codec::Plain => 0,
            Codec::Lz4 => 1,
            Codec::Zstd => 2,
            Codec::Snappy => 3,
            Codec::Rle => 10,
            Codec::Dict => 11,
            Codec::OneValue => 12,
            Codec::Freq => 13,
            Codec::Bitpacking => 14,
            Codec::Delta => 15,
            Codec::DeltaBitpacking => 16,
        }
    }

    /// Looks a codec up by its identifier byte; an identifier outside the
    /// catalog is the fatal `UnknownCodec` error.
    pub fn from_code(code: u8) -> (r: Result<Codec, NativeError>)
        ensures
            match r {
                Ok(c) => codec_of_code(code) == Some(c) && codec_code(c) == code,
                Err(e) => codec_of_code(code) is None && e == NativeError::UnknownCodec,
            },
    {
        if code == 0 {
            Ok(Codec::Plain)
        } else if code == 1 {
            Ok(Codec::Lz4)
        } else if code == 2 {
            Ok(Codec::Zstd)
        } else if code == 3 {
            Ok(Codec::Snappy)
        } else if code == 10 {
            Ok(Codec::Rle)
        } else if code == 11 {
            Ok(Codec::Dict)
        } else if code == 12 {
            Ok(Codec::OneValue)
        } else if code == 13 {
            Ok(Codec::Freq)
        } else if code == 14 {
            Ok(Codec::Bitpacking)
        } else if code == 15 {
            Ok(Codec::Delta)
        } else if code == 16 {
            Ok(Codec::DeltaBitpacking)
        } else {
            Err(NativeError::UnknownCodec)
        }
    }

    /// Whether this codec is a generic byte codec.
    pub fn is_generic(&self) -> (r: bool)
        ensures
            r == is_generic(*self),
    {
        match self {
            Codec::Plain => true,
            Codec::Lz4 => true,
            Codec::Zstd => true,
            Codec::Snappy => true,
            _ => false,
        }
    }
}

/// The identifier assignment is a total injection: two distinct codecs never
/// share an identifier byte, and looking a codec's own identifier up yields
/// that codec back.
pub proof fn lemma_codec_code_injective(a: Codec, b: Codec)
    ensures
        codec_code(a) == codec_code(b) ==> a == b,
        codec_of_code(codec_code(a)) == Some(a),
{
}

} // verus!
