use eeprom::codec::{FREE, HEADER_UNITS, TOMBSTONE};
use eeprom::page::{ACTIVE, ERASED, GC_RUNNING};
use eeprom::{PageHeader, Variable};

#[test]
fn header_units_are_address_then_little_endian_size() {
    let header = Variable { address: 7, size: 0x1234_5678 };
    assert_eq!(header.into_units(), [7, 0x78, 0x56, 0x34, 0x12]);
}

#[test]
fn header_is_read_from_little_endian_units() {
    let header = Variable::from_units(&[7, 0x78, 0x56, 0x34, 0x12]);
    assert_eq!(header, Variable { address: 7, size: 0x1234_5678 });
}

#[test]
fn header_size_is_not_the_raw_units() {
    let header = Variable::from_units(&[1, 0, 1, 0, 0]);
    assert_eq!(header.size, 256);
    let header = Variable::from_units(&[1, 0, 0, 0, 1]);
    assert_eq!(header.size, 16_777_216);
}

#[test]
fn header_round_trip() {
    for size in [0u32, 1, 255, 256, 65_535, 65_536, 16_777_215, 16_777_216, u32::MAX] {
        for address in [0u8, 1, 42, 254, 255] {
            let header = Variable { address, size };
            assert_eq!(Variable::from_units(&header.into_units()), header);
        }
    }
}

#[test]
fn header_of_largest_size() {
    let header = Variable { address: 254, size: u32::MAX };
    assert_eq!(header.into_units(), [254, 0xFF, 0xFF, 0xFF, 0xFF]);
}

#[test]
fn markers_and_widths() {
    assert_eq!(HEADER_UNITS, 5);
    assert_eq!(FREE, u8::MAX);
    assert_eq!(TOMBSTONE, 0);
    assert_eq!(ERASED, u8::MAX);
    assert_eq!(ACTIVE, 1);
    assert_eq!(GC_RUNNING, 0);
}

#[test]
fn page_header_units() {
    assert_eq!(PageHeader::Erased.unit(), 0xFF);
    assert_eq!(PageHeader::Active.unit(), 1);
    assert_eq!(PageHeader::GcRunning.unit(), 0);
}

#[test]
fn page_header_from_unit() {
    assert_eq!(PageHeader::from_unit(0xFF), Some(PageHeader::Erased));
    assert_eq!(PageHeader::from_unit(1), Some(PageHeader::Active));
    assert_eq!(PageHeader::from_unit(0), Some(PageHeader::GcRunning));
    for unit in 2..=254u8 {
        assert_eq!(PageHeader::from_unit(unit), None);
    }
}
