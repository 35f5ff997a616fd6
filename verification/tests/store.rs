use eeprom::{ArrayEEPROM, Error, EEPROM};

fn units<const N: usize, const P: usize>(eeprom: &ArrayEEPROM<N, P>) -> Vec<Vec<u8>> {
    eeprom.get_pages().iter().map(|page| page.to_vec()).collect()
}

fn headers<const N: usize, const P: usize>(eeprom: &ArrayEEPROM<N, P>) -> Vec<u8> {
    eeprom.get_pages().iter().map(|page| page[0]).collect()
}

#[test]
fn write_and_read() {
    let mut eeprom: ArrayEEPROM<3, 4096> = ArrayEEPROM::new();
    let data = [1, 2, 3, 4];

    eeprom.write_variable(1, &data).unwrap();
    assert_eq!(eeprom.read_variable(1).unwrap().unwrap(), &data)
}

#[test]
fn read_missing_returns_none() {
    let eeprom: ArrayEEPROM<3, 4096> = ArrayEEPROM::new();

    assert_eq!(eeprom.read_variable(1), Ok(None))
}

#[test]
fn write_too_much() {
    let mut eeprom: ArrayEEPROM<3, 4096> = ArrayEEPROM::new();
    let data = [1; 4097];

    assert_eq!(eeprom.write_variable(1, &data), Err(Error::OutOfSpace));
}

#[test]
fn run_the_garbage_collector() {
    let mut eeprom: ArrayEEPROM<3, 4096> = ArrayEEPROM::new();

    for i in 0..16 {
        eeprom.write_variable(1, &[i; 512]).unwrap();
        for j in eeprom.read_variable(1).unwrap().unwrap() {
            assert_eq!(j, &i);
        }
    }
}

#[test]
fn write_address_zero_panics() {
    let mut eeprom: ArrayEEPROM<3, 4096> = ArrayEEPROM::new();

    assert_eq!(eeprom.write_variable(0, &[1]), Err(Error::ReservedAddress));
}

#[test]
fn write_address_max_panics() {
    let mut eeprom: ArrayEEPROM<3, 4096> = ArrayEEPROM::new();

    assert_eq!(eeprom.write_variable(u8::MAX, &[1]), Err(Error::ReservedAddress));
}

#[test]
fn read_address_zero_panics() {
    let eeprom: ArrayEEPROM<3, 4096> = ArrayEEPROM::new();

    assert_eq!(eeprom.read_variable(0), Err(Error::ReservedAddress));
}

#[test]
fn read_address_max_panics() {
    let eeprom: ArrayEEPROM<3, 4096> = ArrayEEPROM::new();

    assert_eq!(eeprom.read_variable(u8::MAX), Err(Error::ReservedAddress));
}

#[test]
fn new_store_is_erased() {
    let eeprom: ArrayEEPROM<4, 32> = ArrayEEPROM::new();
    assert_eq!(units(&eeprom), vec![vec![0xFFu8; 32]; 4]);
}

#[test]
fn reset_page_erases_one_page() {
    let mut eeprom: ArrayEEPROM<3, 8> = ArrayEEPROM::new();
    for index in 0..3 {
        eeprom.get_page_mut(index).copy_from_slice(&[index as u8; 8]);
    }
    eeprom.reset_page(1);
    assert_eq!(units(&eeprom), vec![vec![0u8; 8], vec![0xFFu8; 8], vec![2u8; 8]]);
}

#[test]
fn two_pages_are_handed_out_in_the_order_asked_for() {
    let mut eeprom: ArrayEEPROM<3, 4> = ArrayEEPROM::new();
    {
        let (a, b) = eeprom.get_two_pages_mut(2, 0);
        a[1] = 20;
        b[1] = 10;
    }
    {
        let (a, b) = eeprom.get_two_pages_mut(0, 1);
        assert_eq!(a[1], 10);
        b[1] = 11;
    }
    assert_eq!(
        units(&eeprom),
        vec![vec![0xFF, 10, 0xFF, 0xFF], vec![0xFF, 11, 0xFF, 0xFF], vec![0xFF, 20, 0xFF, 0xFF]]
    );
}

#[test]
fn first_write_formats_the_store() {
    let mut eeprom: ArrayEEPROM<3, 16> = ArrayEEPROM::new();
    assert_eq!(eeprom.write_variable(5, &[0xA1, 0xA2]), Ok(()));
    assert_eq!(
        units(&eeprom),
        vec![
            vec![1, 5, 2, 0, 0, 0, 0xA1, 0xA2, 0xFF, 0xFF, 0xFF, 0xFF, 0xFF, 0xFF, 0xFF, 0xFF],
            vec![0xFF; 16],
            vec![0xFF; 16],
        ]
    );
}

#[test]
fn overwriting_leaves_a_tombstone_and_appends() {
    let mut eeprom: ArrayEEPROM<3, 24> = ArrayEEPROM::new();
    eeprom.write_variable(5, &[0xA1, 0xA2]).unwrap();
    eeprom.write_variable(6, &[0xB1]).unwrap();
    eeprom.write_variable(5, &[0xC1]).unwrap();
    assert_eq!(
        units(&eeprom)[0],
        vec![
            1, 0, 2, 0, 0, 0, 0xA1, 0xA2, 6, 1, 0, 0, 0, 0xB1, 5, 1, 0, 0, 0, 0xC1, 0xFF, 0xFF,
            0xFF, 0xFF
        ]
    );
    assert_eq!(eeprom.read_variable(5), Ok(Some(&[0xC1u8][..])));
    assert_eq!(eeprom.read_variable(6), Ok(Some(&[0xB1u8][..])));
}

#[test]
fn empty_value_is_stored() {
    let mut eeprom: ArrayEEPROM<2, 16> = ArrayEEPROM::new();
    eeprom.write_variable(9, &[]).unwrap();
    assert_eq!(eeprom.read_variable(9), Ok(Some(&[][..])));
    assert_eq!(eeprom.read_variable(8), Ok(None));
    assert_eq!(&units(&eeprom)[0][..7], &[1, 9, 0, 0, 0, 0, 0xFF]);
}

#[test]
fn reading_changes_nothing() {
    let mut eeprom: ArrayEEPROM<3, 64> = ArrayEEPROM::new();
    eeprom.write_variable(5, &[1, 2, 3]).unwrap();
    let before = units(&eeprom);
    assert_eq!(eeprom.read_variable(5), Ok(Some(&[1u8, 2, 3][..])));
    assert_eq!(eeprom.read_variable(6), Ok(None));
    assert_eq!(units(&eeprom), before);
}

#[test]
fn reading_an_erased_store_changes_nothing() {
    let eeprom: ArrayEEPROM<3, 64> = ArrayEEPROM::new();
    for address in 1..=254u8 {
        assert_eq!(eeprom.read_variable(address), Ok(None));
    }
    assert_eq!(units(&eeprom), vec![vec![0xFFu8; 64]; 3]);
}

#[test]
fn formatted_store_holds_nothing() {
    let mut eeprom: ArrayEEPROM<3, 64> = ArrayEEPROM::new();
    eeprom.initialize();
    for address in 1..=254u8 {
        assert_eq!(eeprom.read_variable(address), Ok(None));
    }
}

#[test]
fn reserved_addresses_leave_the_store_alone() {
    let mut eeprom: ArrayEEPROM<3, 64> = ArrayEEPROM::new();
    eeprom.write_variable(5, &[1]).unwrap();
    let before = units(&eeprom);
    assert_eq!(eeprom.write_variable(0, &[]), Err(Error::ReservedAddress));
    assert_eq!(eeprom.write_variable(255, &[1; 100]), Err(Error::ReservedAddress));
    assert_eq!(eeprom.read_variable(0), Err(Error::ReservedAddress));
    assert_eq!(eeprom.read_variable(255), Err(Error::ReservedAddress));
    assert_eq!(units(&eeprom), before);
}

#[test]
fn reserved_address_comes_before_a_corrupt_header() {
    let mut eeprom: ArrayEEPROM<3, 64> = ArrayEEPROM::new();
    eeprom.get_page_mut(0)[0] = 7;
    assert_eq!(eeprom.write_variable(0, &[1]), Err(Error::ReservedAddress));
    assert_eq!(eeprom.read_variable(255), Err(Error::ReservedAddress));
}

#[test]
fn corrupt_header_stops_every_operation() {
    for unit in [0u8, 2, 7, 128, 254] {
        let mut eeprom: ArrayEEPROM<3, 64> = ArrayEEPROM::new();
        eeprom.get_page_mut(1)[0] = unit;
        eeprom.get_page_mut(2)[0] = 1;
        let before = units(&eeprom);
        assert_eq!(eeprom.read_variable(5), Err(Error::CorruptHeader));
        assert_eq!(eeprom.write_variable(5, &[1]), Err(Error::CorruptHeader));
        assert_eq!(eeprom.run_garbage_collection(), Err(Error::CorruptHeader));
        assert_eq!(eeprom.active_page(), Err(Error::CorruptHeader));
        assert_eq!(units(&eeprom), before);
    }
}

#[test]
fn header_behind_the_active_page_is_not_looked_at() {
    let mut eeprom: ArrayEEPROM<3, 64> = ArrayEEPROM::new();
    eeprom.get_page_mut(0)[0] = 1;
    eeprom.get_page_mut(2)[0] = 7;
    assert_eq!(eeprom.active_page(), Ok(0));
    assert_eq!(eeprom.read_variable(5), Ok(None));
    assert_eq!(eeprom.write_variable(5, &[1]), Ok(()));
}

#[test]
fn active_page_formats_an_unused_store() {
    let mut eeprom: ArrayEEPROM<3, 8> = ArrayEEPROM::new();
    for index in 0..3 {
        // Garbage behind erased headers.
        eeprom.get_page_mut(index).copy_from_slice(&[0xFF, 3, 1, 0, 0, 0, 9, 9]);
    }
    assert_eq!(eeprom.active_page(), Ok(0));
    let mut first = vec![0xFFu8; 8];
    first[0] = 1;
    assert_eq!(units(&eeprom), vec![first, vec![0xFF; 8], vec![0xFF; 8]]);
    // A second call finds page 0 and changes nothing.
    let before = units(&eeprom);
    assert_eq!(eeprom.active_page(), Ok(0));
    assert_eq!(units(&eeprom), before);
}

#[test]
fn initialize_gives_the_same_store_whatever_was_there() {
    let mut blank: ArrayEEPROM<3, 8> = ArrayEEPROM::new();
    blank.initialize();
    let mut used: ArrayEEPROM<3, 8> = ArrayEEPROM::new();
    for index in 0..3 {
        used.get_page_mut(index).copy_from_slice(&[index as u8 + 3; 8]);
    }
    used.initialize();
    assert_eq!(units(&blank), units(&used));
    assert_eq!(headers(&used), vec![1, 0xFF, 0xFF]);
    let once = units(&used);
    used.initialize();
    assert_eq!(units(&used), once);
}

#[test]
fn collection_moves_live_entries_and_erases_the_old_page() {
    let mut eeprom: ArrayEEPROM<3, 32> = ArrayEEPROM::new();
    eeprom.write_variable(5, &[0xA1]).unwrap();
    eeprom.write_variable(6, &[0xB1, 0xB2]).unwrap();
    eeprom.write_variable(5, &[0xC1]).unwrap();
    assert_eq!(eeprom.run_garbage_collection(), Ok(1));
    let mut moved = vec![0xFFu8; 32];
    moved[..14].copy_from_slice(&[1, 6, 2, 0, 0, 0, 0xB1, 0xB2, 5, 1, 0, 0, 0, 0xC1]);
    assert_eq!(units(&eeprom), vec![vec![0xFF; 32], moved, vec![0xFF; 32]]);
    assert_eq!(eeprom.read_variable(5), Ok(Some(&[0xC1u8][..])));
    assert_eq!(eeprom.read_variable(6), Ok(Some(&[0xB1u8, 0xB2][..])));
}

#[test]
fn collection_goes_round_the_ring() {
    let mut eeprom: ArrayEEPROM<4, 32> = ArrayEEPROM::new();
    eeprom.write_variable(5, &[0xA1]).unwrap();
    let mut seen = Vec::new();
    for cycle in 1..=8usize {
        let target = eeprom.run_garbage_collection().unwrap();
        assert_eq!(target, cycle % 4);
        let mut expected = vec![0xFFu8; 4];
        expected[target] = 1;
        assert_eq!(headers(&eeprom), expected);
        assert_eq!(eeprom.read_variable(5), Ok(Some(&[0xA1u8][..])));
        seen.push(target);
    }
    assert_eq!(seen, vec![1, 2, 3, 0, 1, 2, 3, 0]);
}

#[test]
fn collection_on_an_unused_store_formats_it_first() {
    let mut eeprom: ArrayEEPROM<3, 16> = ArrayEEPROM::new();
    assert_eq!(eeprom.run_garbage_collection(), Ok(1));
    assert_eq!(headers(&eeprom), vec![0xFF, 1, 0xFF]);
}

#[test]
fn collection_needs_an_erased_page() {
    let mut eeprom: ArrayEEPROM<3, 16> = ArrayEEPROM::new();
    eeprom.write_variable(5, &[0xA1]).unwrap();
    eeprom.get_page_mut(1)[0] = 0;
    let before = units(&eeprom);
    assert_eq!(eeprom.run_garbage_collection(), Err(Error::GcInvariantViolated));
    assert_eq!(units(&eeprom), before);
    assert_eq!(eeprom.read_variable(5), Ok(Some(&[0xA1u8][..])));
}

#[test]
fn collection_wraps_to_page_zero() {
    let mut eeprom: ArrayEEPROM<2, 16> = ArrayEEPROM::new();
    eeprom.write_variable(5, &[0xA1]).unwrap();
    assert_eq!(eeprom.run_garbage_collection(), Ok(1));
    assert_eq!(eeprom.run_garbage_collection(), Ok(0));
    assert_eq!(headers(&eeprom), vec![1, 0xFF]);
    assert_eq!(eeprom.read_variable(5), Ok(Some(&[0xA1u8][..])));
}

#[test]
fn store_of_one_page_cannot_collect() {
    let mut eeprom: ArrayEEPROM<1, 16> = ArrayEEPROM::new();
    assert_eq!(eeprom.write_variable(5, &[1, 2, 3]), Ok(()));
    assert_eq!(eeprom.run_garbage_collection(), Err(Error::GcInvariantViolated));
    assert_eq!(eeprom.read_variable(5), Ok(Some(&[1u8, 2, 3][..])));
    // No room is left behind the first entry, and no page to move to.
    assert_eq!(eeprom.write_variable(6, &[1, 2, 3]), Err(Error::GcInvariantViolated));
}

#[test]
fn value_that_fills_the_page_fits() {
    let mut eeprom: ArrayEEPROM<2, 64> = ArrayEEPROM::new();
    let data = [7u8; 58];
    assert_eq!(eeprom.write_variable(5, &data), Ok(()));
    assert_eq!(eeprom.read_variable(5), Ok(Some(&data[..])));
    assert_eq!(eeprom.write_variable(5, &data), Ok(()));
    assert_eq!(eeprom.read_variable(5), Ok(Some(&data[..])));
    assert_eq!(headers(&eeprom), vec![0xFF, 1]);
}

#[test]
fn value_one_unit_too_long_is_refused() {
    let mut eeprom: ArrayEEPROM<2, 64> = ArrayEEPROM::new();
    assert_eq!(eeprom.write_variable(5, &[7u8; 59]), Err(Error::OutOfSpace));
    // The cycle that was tried has moved the active page on.
    assert_eq!(headers(&eeprom), vec![0xFF, 1]);
}

#[test]
fn write_runs_out_of_space_when_live_data_fills_the_page() {
    let mut eeprom: ArrayEEPROM<3, 32> = ArrayEEPROM::new();
    eeprom.write_variable(1, &[1; 10]).unwrap();
    eeprom.write_variable(2, &[2; 10]).unwrap();
    assert_eq!(eeprom.write_variable(3, &[3; 10]), Err(Error::OutOfSpace));
    assert_eq!(eeprom.read_variable(1), Ok(Some(&[1u8; 10][..])));
    assert_eq!(eeprom.read_variable(2), Ok(Some(&[2u8; 10][..])));
    assert_eq!(eeprom.read_variable(3), Ok(None));
    assert_eq!(headers(&eeprom), vec![0xFF, 1, 0xFF]);
}

#[test]
fn write_collects_at_most_once() {
    let mut eeprom: ArrayEEPROM<4, 32> = ArrayEEPROM::new();
    eeprom.write_variable(1, &[1; 20]).unwrap();
    assert_eq!(eeprom.write_variable(2, &[2; 20]), Err(Error::OutOfSpace));
    assert_eq!(headers(&eeprom), vec![0xFF, 1, 0xFF, 0xFF]);
}

#[test]
fn other_variables_survive_churn() {
    let mut eeprom: ArrayEEPROM<3, 128> = ArrayEEPROM::new();
    eeprom.write_variable(10, &[0xAA; 7]).unwrap();
    eeprom.write_variable(20, &[0xBB; 3]).unwrap();
    for round in 0..100u8 {
        eeprom.write_variable(30, &[round; 25]).unwrap();
        assert_eq!(eeprom.read_variable(30), Ok(Some(&[round; 25][..])));
        assert_eq!(eeprom.read_variable(10), Ok(Some(&[0xAA; 7][..])));
        assert_eq!(eeprom.read_variable(20), Ok(Some(&[0xBB; 3][..])));
        assert_eq!(eeprom.read_variable(40), Ok(None));
    }
}

#[test]
fn churn_erases_every_page_in_turn() {
    let mut eeprom: ArrayEEPROM<3, 64> = ArrayEEPROM::new();
    let mut actives = Vec::new();
    for round in 0..40u8 {
        eeprom.write_variable(1, &[round; 20]).unwrap();
        let active = headers(&eeprom).iter().position(|unit| *unit == 1).unwrap();
        if actives.last() != Some(&active) {
            actives.push(active);
        }
        assert_eq!(headers(&eeprom).iter().filter(|unit| **unit == 0xFF).count(), 2);
    }
    assert!(actives.len() > 6);
    for (step, active) in actives.iter().enumerate() {
        assert_eq!(*active, step % 3);
    }
}

#[test]
fn all_addresses_can_be_stored() {
    let mut eeprom: ArrayEEPROM<2, 4096> = ArrayEEPROM::new();
    for address in 1..=254u8 {
        eeprom.write_variable(address, &[address, address]).unwrap();
    }
    for address in 1..=254u8 {
        assert_eq!(eeprom.read_variable(address), Ok(Some(&[address, address][..])));
    }
}

#[test]
fn failed_write_may_drop_the_old_value() {
    let mut eeprom: ArrayEEPROM<3, 32> = ArrayEEPROM::new();
    eeprom.write_variable(1, &[1; 2]).unwrap();
    eeprom.write_variable(2, &[9; 10]).unwrap();
    // The scan passes the entry of 1, then that of 2, and finds no room; the
    // cycle moves the entry of 2 alone, and no room is left behind it.
    assert_eq!(eeprom.write_variable(1, &[5; 12]), Err(Error::OutOfSpace));
    assert_eq!(eeprom.read_variable(1), Ok(None));
    assert_eq!(eeprom.read_variable(2), Ok(Some(&[9u8; 10][..])));
    let mut moved = vec![0xFFu8; 32];
    moved[..6].copy_from_slice(&[1, 2, 10, 0, 0, 0]);
    moved[6..16].copy_from_slice(&[9; 10]);
    assert_eq!(units(&eeprom), vec![vec![0xFF; 32], moved, vec![0xFF; 32]]);
}

#[test]
fn failed_write_keeps_an_old_value_that_the_scan_did_not_reach() {
    let mut eeprom: ArrayEEPROM<3, 32> = ArrayEEPROM::new();
    eeprom.write_variable(2, &[9; 10]).unwrap();
    eeprom.write_variable(1, &[1; 2]).unwrap();
    assert_eq!(eeprom.write_variable(1, &[5; 12]), Err(Error::OutOfSpace));
    assert_eq!(eeprom.read_variable(1), Ok(Some(&[1u8; 2][..])));
    assert_eq!(eeprom.read_variable(2), Ok(Some(&[9u8; 10][..])));
}

#[test]
fn write_succeeds_when_the_live_entries_leave_room() {
    let mut eeprom: ArrayEEPROM<2, 32> = ArrayEEPROM::new();
    // Ten units of live data, and dead entries up to the end of the page.
    eeprom.write_variable(1, &[1; 5]).unwrap();
    eeprom.write_variable(2, &[2; 5]).unwrap();
    eeprom.write_variable(2, &[3; 5]).unwrap();
    assert_eq!(headers(&eeprom), vec![1, 0xFF]);
    // 1 + 20 live units + 11 fit into 32.
    assert_eq!(eeprom.write_variable(3, &[4; 6]), Ok(()));
    assert_eq!(headers(&eeprom), vec![0xFF, 1]);
    assert_eq!(eeprom.read_variable(1), Ok(Some(&[1u8; 5][..])));
    assert_eq!(eeprom.read_variable(2), Ok(Some(&[3u8; 5][..])));
    assert_eq!(eeprom.read_variable(3), Ok(Some(&[4u8; 6][..])));
    // Nothing more fits, dead or alive.
    assert_eq!(eeprom.write_variable(4, &[]), Err(Error::OutOfSpace));
}

#[test]
fn write_to_a_store_left_in_collection_is_refused() {
    // A page marked as being collected, found where the active page should be.
    let mut eeprom: ArrayEEPROM<3, 32> = ArrayEEPROM::new();
    eeprom.write_variable(1, &[1; 5]).unwrap();
    eeprom.get_page_mut(0)[0] = 0;
    eeprom.get_page_mut(1)[0] = 1;
    assert_eq!(eeprom.write_variable(2, &[1]), Err(Error::CorruptHeader));
    assert_eq!(eeprom.read_variable(1), Err(Error::CorruptHeader));
}

#[test]
fn moving_live_entries_marks_the_source_as_being_collected() {
    let mut eeprom: ArrayEEPROM<3, 24> = ArrayEEPROM::new();
    eeprom.write_variable(5, &[0xA1]).unwrap();
    eeprom.write_variable(6, &[0xB1]).unwrap();
    eeprom.write_variable(5, &[0xC1]).unwrap();
    let before = units(&eeprom);
    eeprom.move_live_entries(0, 1);
    let after = units(&eeprom);
    assert_eq!(after[0][0], 0);
    assert_eq!(&after[0][1..], &before[0][1..]);
    let mut target = vec![0xFFu8; 24];
    target[1..13].copy_from_slice(&[6, 1, 0, 0, 0, 0xB1, 5, 1, 0, 0, 0, 0xC1]);
    assert_eq!(after[1], target);
    assert_eq!(after[2], before[2]);
    // A store left like this is not one that the engine works on.
    assert_eq!(eeprom.read_variable(5), Err(Error::CorruptHeader));
}
