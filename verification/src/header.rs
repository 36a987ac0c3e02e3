use vstd::prelude::*;
use vstd::arithmetic::power2::pow2;
use crate::error::InflateError;

verus! {

/// The compression method a stream header announces; only DEFLATE, method
/// 8, is defined.
#[derive(Clone, Copy, Debug, PartialEq, Eq, Structural)]
pub enum CompressionMethod {
    Deflate,
}

/// The window-size hint of the stream header: the history holds
/// `2^(value + 8)` bytes, so a value above 7 (a window beyond 32 KiB) is
/// rejected.
#[derive(Clone, Copy, Debug, PartialEq, Eq, Structural)]
pub struct CompressionInfo(pub u8);

impl CompressionInfo {
    /// The raw four header bits.
    pub open spec fn spec_value(self) -> u8 {
        self.0
    }

    pub open spec fn wf(self) -> bool {
        self.spec_value() <= 7
    }

    /// Accepts the four header bits when they announce a window of at most
    /// 32 KiB.
    pub fn try_new(value: u8) -> (r: Result<Self, InflateError>)
        ensures
            value <= 7 ==> (r matches Ok(c) && c.spec_value() == value),
            value > 7 ==> r == Err::<Self, InflateError>(
                InflateError::InvalidCompressionInfo(value),
            ),
    {
        if value <= 7 {
            Ok(CompressionInfo(value))
        } else {
            Err(InflateError::InvalidCompressionInfo(value))
        }
    }

    /// The window capacity in bytes, `2^(value + 8)`.
    pub fn window_size(&self) -> (r: usize)
        requires
            self.wf(),
        ensures
            r == pow2((self.spec_value() + 8) as nat),
            256 <= r <= 32768,
    {
        proof {
            vstd::bits::lemma_usize_pow2_no_overflow((self.0 + 8) as nat);
            vstd::bits::lemma_usize_shl_is_mul(1usize, (self.0 + 8) as usize);
            vstd::arithmetic::power2::lemma2_to64();
            if self.0 + 8 < 15 {
                vstd::arithmetic::power2::lemma_pow2_strictly_increases((self.0 + 8) as nat, 15);
            }
        }
        1usize << ((self.0 + 8) as usize)
    }
}

/// The two flag fields of the second header byte that the decoder keeps;
/// the five check bits are verified and dropped.
#[derive(Clone, Copy, Debug, PartialEq, Eq, Structural)]
pub struct Flags {
    pub preset_dictionary: bool,
    pub compression_level: u8,
}

/// The validated two-byte container header that precedes the first block.
#[derive(Clone, Copy, Debug, PartialEq, Eq, Structural)]
pub struct StreamHeader {
    pub method: CompressionMethod,
    pub info: CompressionInfo,
    pub flags: Flags,
}

/// What the two header bytes `cmf` and `flg` parse to: the method nibble
/// must announce DEFLATE, the info nibble a window within 32 KiB, and the
/// two bytes as a big-endian value must be divisible by 31.
pub open spec fn spec_parse_header(cmf: u8, flg: u8) -> Result<StreamHeader, InflateError> {
    if cmf % 16 != 8 {
        Err(InflateError::InvalidCompressionMethod(cmf % 16))
    } else if cmf / 16 > 7 {
        Err(InflateError::InvalidCompressionInfo(cmf / 16))
    } else if (cmf as int * 256 + flg as int) % 31 != 0 {
        Err(InflateError::FlagCheckMismatch((cmf as int * 256 + flg as int) as u16))
    } else {
        Ok(
            StreamHeader {
                method: CompressionMethod::Deflate,
                info: CompressionInfo(cmf / 16),
                flags: Flags {
                    preset_dictionary: flg / 32 % 2 == 1,
                    compression_level: flg / 64,
                },
            },
        )
    }
}

impl StreamHeader {
    /// Parses and validates the two container-header bytes.
    pub fn parse(cmf: u8, flg: u8) -> (r: Result<Self, InflateError>)
        ensures
            r == spec_parse_header(cmf, flg),
            r matches Ok(h) ==> h.info.wf(),
    {
        let method = cmf % 16;
        if method != 8 {
            return Err(InflateError::InvalidCompressionMethod(method));
        }
        let info = cmf / 16;
        if info > 7 {
            return Err(InflateError::InvalidCompressionInfo(info));
        }
        let check = (cmf as u16) * 256 + flg as u16;
        if check % 31 != 0 {
            return Err(InflateError::FlagCheckMismatch(check));
        }
        Ok(
            StreamHeader {
                method: CompressionMethod::Deflate,
                info: CompressionInfo(info),
                flags: Flags {
                    preset_dictionary: flg / 32 % 2 == 1,
                    compression_level: flg / 64,
                },
            },
        )
    }
}

} // verus!
