//! Sums of sine waves, sampled and written out: the reading of the waves'
//! descriptions, the codes of the samples, and the text of the records.
use vstd::prelude::*;
use vstd::std_specs::convert::FromSpecImpl;
use vstd::arithmetic::power2::lemma2_to64;

pub mod text;
pub mod decimal;
pub mod args;
pub mod single;
pub mod fixed;
pub mod record;
pub mod samples;

use crate::single::Single;
use crate::fixed::fixed;
use crate::fixed::encode;
use crate::record::record;
use crate::record::decimal;
use crate::record::write_decimal;
use crate::record::write_record;

verus! {

/// A sample as it is, in single precision.
#[derive(Clone, Copy, Debug, PartialEq, Eq, Structural)]
pub struct FloatData(pub Single);

/// A sample as a fixed-point code of 16 bits.
#[derive(Clone, Copy, Debug, PartialEq, Eq, Structural)]
pub struct HexData16(pub u16);

/// A sample as a fixed-point code of 32 bits.
#[derive(Clone, Copy, Debug, PartialEq, Eq, Structural)]
pub struct HexData32(pub u32);

/// A sample in one of the three forms of output.
#[derive(Clone, Copy, Debug, PartialEq, Eq, Structural)]
pub enum DataType {
    FloatData(FloatData),
    HexData16(HexData16),
    HexData32(HexData32),
}

impl From<Single> for FloatData {
    fn from(value: Single) -> (r: FloatData) {
        FloatData(value)
    }
}

impl FromSpecImpl<Single> for FloatData {
    open spec fn obeys_from_spec() -> bool {
        true
    }

    open spec fn from_spec(value: Single) -> FloatData {
        FloatData(value)
    }
}

impl From<Single> for HexData16 {
    fn from(value: Single) -> (r: HexData16) {
        let code: u64 = encode(value, 16);
        proof {
            lemma2_to64();
        }
        assert(code <= 0xffff);
        HexData16(code as u16)
    }
}

impl FromSpecImpl<Single> for HexData16 {
    open spec fn obeys_from_spec() -> bool {
        true
    }

    open spec fn from_spec(value: Single) -> HexData16 {
        HexData16(fixed(value, 16) as u16)
    }
}

impl From<Single> for HexData32 {
    fn from(value: Single) -> (r: HexData32) {
        let code: u64 = encode(value, 32);
        proof {
            lemma2_to64();
        }
        assert(code <= 0xffff_ffff);
        HexData32(code as u32)
    }
}

impl FromSpecImpl<Single> for HexData32 {
    open spec fn obeys_from_spec() -> bool {
        true
    }

    open spec fn from_spec(value: Single) -> HexData32 {
        HexData32(fixed(value, 32) as u32)
    }
}

impl DataType {
    /// The text of the record: of a fixed-point code its decimal digits, of
    /// a sample in single precision `float_text`, the decimal rendering that
    /// the caller has of it.
    pub open spec fn text(self, float_text: Seq<char>) -> Seq<char> {
        match self {
            DataType::FloatData(_) => record(float_text),
            DataType::HexData16(HexData16(code)) => record(decimal(code as nat)),
            DataType::HexData32(HexData32(code)) => record(decimal(code as nat)),
        }
    }

    /// Writes the record of this sample.
    pub fn to_string(&self, float_text: &str) -> (s: String)
        ensures
            s@ == self.text(float_text@),
    {
        match self {
            DataType::FloatData(_) => write_record(float_text),
            DataType::HexData16(HexData16(code)) => {
                let digits = write_decimal(*code as u64);
                write_record(digits.as_str())
            },
            DataType::HexData32(HexData32(code)) => {
                let digits = write_decimal(*code as u64);
                write_record(digits.as_str())
            },
        }
    }
}

} // verus!
