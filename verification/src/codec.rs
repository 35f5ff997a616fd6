//! The entry codec: how the header of one log entry is laid out in a page.
//!
//! An entry is one address unit, four units that hold the payload's length
//! as a little-endian number, and then the payload itself.

use byteorder::{ByteOrder, LittleEndian};
use vstd::prelude::*;

verus! {

/// Units taken by the header of an entry: the address and the length.
pub const HEADER_UNITS: usize = 5;

/// Address unit found where the log of a page ends: nothing was programmed here
/// since the page was erased.
pub const FREE: u8 = 0xFF;

/// Address unit of an entry whose value has been replaced.
pub const TOMBSTONE: u8 = 0;

/// An address that callers may not use: it marks free space or a dead entry.
pub open spec fn reserved(address: u8) -> bool {
    address == TOMBSTONE || address == FREE
}

/// The number that four units spell in little-endian order.
pub open spec fn le_u32(units: Seq<u8>) -> int
    recommends
        units.len() >= 4,
{
    units[0] + 256 * units[1] + 65536 * units[2] + 16777216 * units[3]
}

/// The four units that spell `value` in little-endian order.
#[verifier::opaque]
pub open spec fn le_units(value: u32) -> Seq<u8> {
    seq![
        (value % 256) as u8,
        ((value / 256) % 256) as u8,
        ((value / 65536) % 256) as u8,
        ((value / 16777216) % 256) as u8,
    ]
}

/// Reading back the units of a number gives the number.
pub proof fn lemma_le_round_trip(value: u32)
    ensures
        le_units(value).len() == 4,
        le_u32(le_units(value)) == value,
{
    reveal(le_units);
    assert(value == (value % 256) + 256 * ((value / 256) % 256) + 65536 * ((value / 65536) % 256)
        + 16777216 * ((value / 16777216) % 256)) by (bit_vector);
}

/// `byteorder::LittleEndian::read_u32`: the first four units of `units` read as
/// a little-endian number. The outside function panics on fewer than four
/// units, which the precondition rules out.
#[verifier::external_body]
fn read_u32_le(units: &[u8]) -> (value: u32)
    requires
        units@.len() >= 4,
    ensures
        value as int == le_u32(units@),
{
    LittleEndian::read_u32(units)
}

/// The header of a log entry.
#[derive(Clone, Copy, Debug, PartialEq, Eq)]
pub struct Variable {
    /// Key of the entry, or one of the two markers `FREE` and `TOMBSTONE`.
    pub address: u8,
    /// Number of payload units that follow the header.
    pub size: u32,
}

impl Variable {
    /// The header as it stands in a page.
    pub open spec fn units(self) -> Seq<u8> {
        seq![self.address] + le_units(self.size)
    }

    /// The header that five units of a page spell.
    pub open spec fn parse(units: Seq<u8>) -> Variable
        recommends
            units.len() == HEADER_UNITS,
    {
        Variable { address: units[0], size: le_u32(units.subrange(1, 5)) as u32 }
    }

    /// Lays the header out as the five units that go into a page.
    pub fn into_units(self) -> (units: [u8; 5])
        ensures
            units@ == self.units(),
    {
        let size: u32 = self.size;
        let units: [u8; 5] = [
            self.address,
            (size % 256) as u8,
            ((size / 256) % 256) as u8,
            ((size / 65536) % 256) as u8,
            ((size / 16777216) % 256) as u8,
        ];
        proof {
            reveal(le_units);
            assert(units@ =~= self.units());
        }
        units
    }

    /// Reads a header from the five units at the start of an entry.
    pub fn from_units(units: &[u8]) -> (header: Variable)
        requires
            units@.len() == HEADER_UNITS,
        ensures
            header == Variable::parse(units@),
    {
        let size: u32 = read_u32_le(&units[1..5]);
        Variable { address: units[0], size }
    }
}

/// A header that is laid out and read back is unchanged.
pub proof fn lemma_header_round_trip(header: Variable)
    ensures
        header.units().len() == HEADER_UNITS,
        Variable::parse(header.units()) == header,
{
    lemma_le_round_trip(header.size);
    assert(header.units().subrange(1, 5) =~= le_units(header.size));
}

} // verus!
