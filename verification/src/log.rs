//! The log of a page: entries packed one after the other from offset 1, up to
//! the first free address unit or the end of the page.
//!
//! The functions here read and change one page. What they compute is stated
//! over the units of the page.

use crate::codec::{FREE, HEADER_UNITS, TOMBSTONE, Variable, le_u32};
use crate::log_lemmas::{lemma_free_slot_behind, lemma_free_slot_fits, lemma_tombstoned_units};
use vstd::prelude::*;

verus! {

/// Number of payload units that the entry at `at` announces.
pub open spec fn payload_len(page: Seq<u8>, at: int) -> int {
    le_u32(page.subrange(at + 1, at + 5))
}

/// Offset of the first unit behind the entry at `at`.
pub open spec fn entry_end(page: Seq<u8>, at: int) -> int {
    at + HEADER_UNITS + payload_len(page, at)
}

/// Payload of the entry at `at`.
pub open spec fn payload(page: Seq<u8>, at: int) -> Seq<u8> {
    page.subrange(at + HEADER_UNITS, entry_end(page, at))
}

/// An entry, live or dead, stands at `at` and lies wholly inside the page.
pub open spec fn entry_at(page: Seq<u8>, at: int) -> bool {
    &&& 1 <= at
    &&& at + HEADER_UNITS <= page.len()
    &&& page[at] != FREE
    &&& entry_end(page, at) <= page.len()
}

/// The value that a scan from `at` finds for `address`: the payload of the
/// first entry with that address, `None` if the log ends before one is found.
pub open spec fn lookup(page: Seq<u8>, address: u8, at: int) -> Option<Seq<u8>>
    decreases page.len() - at,
{
    if !entry_at(page, at) {
        None
    } else if page[at] == address {
        Some(payload(page, at))
    } else {
        lookup(page, address, entry_end(page, at))
    }
}

/// Offset at which the log that starts at `at` ends: the first offset at
/// which no entry stands.
pub open spec fn log_end(page: Seq<u8>, at: int) -> int
    decreases page.len() - at,
{
    if entry_at(page, at) {
        log_end(page, entry_end(page, at))
    } else {
        at
    }
}

/// Number of live entries for `address` in the log from `at` on.
pub open spec fn occurrences(page: Seq<u8>, address: u8, at: int) -> nat
    decreases page.len() - at,
{
    if !entry_at(page, at) {
        0
    } else if page[at] == address {
        1 + occurrences(page, address, entry_end(page, at))
    } else {
        occurrences(page, address, entry_end(page, at))
    }
}

/// No address has more than one live entry in the log of the page.
pub open spec fn unique(page: Seq<u8>) -> bool {
    forall|address: u8| address != TOMBSTONE ==> occurrences(page, address, 1) <= 1
}

/// The page holds nothing behind its log: from the end of the log on, every
/// unit is as erasing left it.
pub open spec fn settled(page: Seq<u8>) -> bool {
    forall|i: int| log_end(page, 1) <= i < page.len() ==> page[i] == FREE
}

/// `page` with the units from `at` on replaced by `units`, as far as they go.
pub open spec fn overlay(page: Seq<u8>, at: int, units: Seq<u8>) -> Seq<u8> {
    Seq::new(
        page.len(),
        |i: int|
            if at <= i < at + units.len() {
                units[i - at]
            } else {
                page[i]
            },
    )
}

/// The units of a whole entry: header, then payload.
pub open spec fn entry_units(address: u8, data: Seq<u8>) -> Seq<u8> {
    Variable { address, size: data.len() as u32 }.units() + data
}

/// Where a scan from `at` finds free space for an entry of `room` units: the
/// offset of the first free address unit, if the scan gets there with `room`
/// units left up to the end of the page.
pub open spec fn free_slot(page: Seq<u8>, room: int, at: int) -> Option<int>
    decreases page.len() - at,
{
    if at < 1 || room < HEADER_UNITS || at + room > page.len() {
        None
    } else if page[at] == FREE {
        Some(at)
    } else if entry_end(page, at) > page.len() {
        None
    } else {
        free_slot(page, room, entry_end(page, at))
    }
}

/// The page as the scan for free space leaves it: every entry for `address`
/// that the scan passes on its way from `at` has become a tombstone.
pub open spec fn tombstoned(page: Seq<u8>, address: u8, room: int, at: int) -> Seq<u8>
    decreases page.len() - at,
{
    if at < 1 || room < HEADER_UNITS || at + room > page.len() || page[at] == FREE {
        page
    } else {
        let marked = if page[at] == address {
            page.update(at, TOMBSTONE)
        } else {
            page
        };
        if entry_end(page, at) > page.len() {
            marked
        } else {
            tombstoned(marked, address, room, entry_end(page, at))
        }
    }
}

/// The live entries of the log from `at` on, in their order, header and
/// payload, with nothing between them.
pub open spec fn live_units(page: Seq<u8>, at: int) -> Seq<u8>
    decreases page.len() - at,
{
    if !entry_at(page, at) {
        Seq::empty()
    } else if page[at] == TOMBSTONE {
        live_units(page, entry_end(page, at))
    } else {
        page.subrange(at, entry_end(page, at)) + live_units(page, entry_end(page, at))
    }
}

/// What the write path does to one page: the page that it leaves, and whether
/// the entry found room there.
pub open spec fn write_in_page(page: Seq<u8>, address: u8, data: Seq<u8>) -> (Seq<u8>, bool) {
    let room = HEADER_UNITS + data.len();
    let scanned = tombstoned(page, address, room, 1);
    match free_slot(page, room, 1) {
        Some(at) => (overlay(scanned, at, entry_units(address, data)), true),
        None => (scanned, false),
    }
}

/// Reads the header of the entry at offset `at`.
pub fn header_at(page: &[u8], at: usize) -> (header: Variable)
    requires
        at + HEADER_UNITS <= page.len(),
    ensures
        header.address == page@[at as int],
        header.size == payload_len(page@, at as int),
{
    let header: Variable = Variable::from_units(&page[at..at + HEADER_UNITS]);
    assert(page@.subrange(at as int, at + 5).subrange(1, 5) =~= page@.subrange(at + 1, at + 5));
    header
}

/// Looks `address` up in the log of a page.
pub fn find_variable<'a>(page: &'a [u8], address: u8) -> (found: Option<&'a [u8]>)
    ensures
        match found {
            Some(data) => lookup(page@, address, 1) == Some(data@),
            None => lookup(page@, address, 1) is None,
        },
{
    let len: usize = page.len();
    let mut at: usize = 1;
    loop
        invariant
            1 <= at,
            len == page@.len(),
            lookup(page@, address, at as int) == lookup(page@, address, 1),
        decreases len - at,
    {
        if at > len || len - at < HEADER_UNITS {
            return None;
        }
        let header: Variable = header_at(page, at);
        if header.address == FREE || header.size as usize > len - at - HEADER_UNITS {
            return None;
        }
        let end: usize = at + HEADER_UNITS + header.size as usize;
        if header.address == address {
            return Some(&page[at + HEADER_UNITS..end]);
        }
        at = end;
    }
}

/// Programs `units` into `page` from offset `at` on.
pub fn copy_units(page: &mut [u8], at: usize, units: &[u8])
    requires
        at + units@.len() <= old(page)@.len(),
    ensures
        final(page)@ == overlay(old(page)@, at as int, units@),
{
    let size: usize = page.len();
    let count: usize = units.len();
    let mut done: usize = 0;
    while done < count
        invariant
            done <= count,
            count == units@.len(),
            size == page@.len(),
            at + count <= size,
            page@ == overlay(old(page)@, at as int, units@.subrange(0, done as int)),
        decreases count - done,
    {
        page[at + done] = units[done];
        done = done + 1;
        assert(page@ =~= overlay(old(page)@, at as int, units@.subrange(0, done as int)));
    }
    assert(units@.subrange(0, count as int) =~= units@);
}

/// Scans the log for the free space that an entry with `len` payload units
/// needs, and turns every entry for `address` that the scan passes into a
/// tombstone. Returns the offset of the free space, or `None` where the scan
/// runs out of room before it finds any.
pub fn claim_slot(page: &mut [u8], address: u8, len: usize) -> (slot: Option<usize>)
    ensures
        final(page)@ == tombstoned(old(page)@, address, HEADER_UNITS + len, 1),
        match slot {
            Some(at) => free_slot(old(page)@, HEADER_UNITS + len, 1) == Some(at as int),
            None => free_slot(old(page)@, HEADER_UNITS + len, 1) is None,
        },
{
    let size: usize = page.len();
    let ghost room: int = HEADER_UNITS + len;
    let mut at: usize = 1;
    loop
        invariant
            1 <= at,
            size == page@.len(),
            page@.len() == old(page)@.len(),
            room == HEADER_UNITS + len,
            tombstoned(page@, address, room, at as int) == tombstoned(
                old(page)@,
                address,
                room,
                1,
            ),
            free_slot(page@, room, at as int) == free_slot(old(page)@, room, 1),
        decreases size - at,
    {
        if at > size || size - at < HEADER_UNITS || size - at - HEADER_UNITS < len {
            return None;
        }
        let header: Variable = header_at(page, at);
        if header.address == FREE {
            return Some(at);
        }
        let ghost before = page@;
        if header.address == address {
            page[at] = TOMBSTONE;
        }
        proof {
            assert(page@.subrange(at + 1, at + 5) =~= before.subrange(at + 1, at + 5));
            lemma_free_slot_behind(before, page@, room, entry_end(before, at as int));
        }
        if header.size as usize > size - at - HEADER_UNITS {
            return None;
        }
        at = at + HEADER_UNITS + header.size as usize;
    }
}

/// Programs an entry for `address` with payload `data` at offset `at`.
pub fn put_entry(page: &mut [u8], at: usize, address: u8, data: &[u8])
    requires
        at + HEADER_UNITS + data.len() <= old(page).len(),
        data.len() <= u32::MAX,
    ensures
        final(page)@ == overlay(old(page)@, at as int, entry_units(address, data@)),
{
    let header: [u8; 5] = Variable { address, size: data.len() as u32 }.into_units();
    copy_units(page, at, &header);
    copy_units(page, at + HEADER_UNITS, data);
    assert(page@ =~= overlay(old(page)@, at as int, entry_units(address, data@)));
}

/// The write path on one page: turns the entries for `address` that stand
/// before the free space into tombstones, and programs the new entry into
/// the free space if the scan gets there with room for it. Returns whether
/// the entry was programmed.
pub fn write_entry(page: &mut [u8], address: u8, data: &[u8]) -> (placed: bool)
    requires
        old(page).len() <= u32::MAX,
    ensures
        final(page)@ == write_in_page(old(page)@, address, data@).0,
        placed == write_in_page(old(page)@, address, data@).1,
{
    proof {
        lemma_free_slot_fits(page@, HEADER_UNITS + data@.len(), 1);
        lemma_tombstoned_units(page@, address, HEADER_UNITS + data@.len(), 1);
    }
    match claim_slot(page, address, data.len()) {
        Some(at) => {
            put_entry(page, at, address, data);
            true
        },
        None => false,
    }
}

/// Copies the live entries of `source` to `target`, packed from offset 1 on,
/// and leaves the rest of `target` as it is. Returns the offset behind the
/// last unit copied.
pub fn compact(source: &[u8], target: &mut [u8]) -> (end: usize)
    requires
        source@.len() == old(target)@.len(),
    ensures
        final(target)@ == overlay(old(target)@, 1, live_units(source@, 1)),
        end == 1 + live_units(source@, 1).len(),
{
    let size: usize = source.len();
    let mut from: usize = 1;
    let mut to: usize = 1;
    loop
        invariant
            1 <= to <= from,
            size == source@.len(),
            size == target@.len(),
            size == old(target)@.len(),
            target@ == overlay(old(target)@, 1, target@.subrange(1, to as int)),
            to <= size ==> target@.subrange(1, to as int) + live_units(source@, from as int)
                == live_units(source@, 1),
            to > size ==> live_units(source@, 1).len() == 0 && to == 1,
        decreases size - from,
    {
        if from > size || size - from < HEADER_UNITS {
            proof {
                if to <= size {
                    assert(target@.subrange(1, to as int) + Seq::<u8>::empty()
                        =~= target@.subrange(1, to as int));
                } else {
                    assert(live_units(source@, 1) =~= Seq::<u8>::empty());
                    assert(target@ =~= overlay(old(target)@, 1, Seq::<u8>::empty()));
                }
            }
            return to;
        }
        let header: Variable = header_at(source, from);
        if header.address == FREE || header.size as usize > size - from - HEADER_UNITS {
            proof {
                assert(target@.subrange(1, to as int) + Seq::<u8>::empty()
                    =~= target@.subrange(1, to as int));
            }
            return to;
        }
        let end: usize = from + HEADER_UNITS + header.size as usize;
        if header.address != TOMBSTONE {
            let ghost before = target@;
            copy_units(target, to, &source[from..end]);
            proof {
                let entry = source@.subrange(from as int, end as int);
                assert(target@.subrange(1, to + (end - from)) =~= before.subrange(1, to as int)
                    + entry);
                assert((before.subrange(1, to as int) + entry) + live_units(source@, end as int)
                    =~= before.subrange(1, to as int) + (entry + live_units(
                    source@,
                    end as int,
                )));
                assert(target@ =~= overlay(
                    old(target)@,
                    1,
                    target@.subrange(1, to + (end - from)),
                ));
            }
            to = to + (end - from);
        }
        from = end;
    }
}

} // verus!
