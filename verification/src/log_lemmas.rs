//! Facts about the log of a page that the engine and the laws of the store
//! rest on.

use crate::codec::{FREE, HEADER_UNITS, TOMBSTONE, le_units, lemma_le_round_trip, reserved};
use crate::log::{
    entry_at, entry_end, entry_units, free_slot, live_units, log_end, lookup, occurrences,
    overlay, payload, payload_len, tombstoned, write_in_page,
};
use vstd::prelude::*;

verus! {

/// Two pages of one length hold the same units from `at` on.
pub open spec fn same_from(page: Seq<u8>, other: Seq<u8>, at: int) -> bool {
    &&& page.len() == other.len()
    &&& forall|i: int| at <= i < page.len() ==> page[i] == other[i]
}

/// A whole entry takes the units of its header and those of its payload.
pub proof fn lemma_entry_units_len(address: u8, data: Seq<u8>)
    ensures
        entry_units(address, data).len() == HEADER_UNITS + data.len(),
        entry_units(address, data)[0] == address,
{
    lemma_le_round_trip(data.len() as u32);
}

/// Two pages that hold the same units from `at` on hold the same entry at
/// `at`, if they hold one.
pub proof fn lemma_entry_behind(page: Seq<u8>, other: Seq<u8>, at: int)
    requires
        same_from(page, other, at),
        1 <= at,
        at + HEADER_UNITS <= page.len(),
    ensures
        payload_len(page, at) == payload_len(other, at),
        entry_end(page, at) == entry_end(other, at),
        entry_at(page, at) == entry_at(other, at),
        entry_at(page, at) ==> payload(page, at) == payload(other, at),
{
    assert(page.subrange(at + 1, at + 5) =~= other.subrange(at + 1, at + 5));
    if entry_at(page, at) {
        assert(payload(page, at) =~= payload(other, at));
    }
}

/// The log from `at` on ends at or behind `at`, inside the page if `at` is,
/// and no entry stands where it ends.
pub proof fn lemma_log_end(page: Seq<u8>, at: int)
    requires
        1 <= at,
    ensures
        at <= log_end(page, at),
        at <= page.len() ==> log_end(page, at) <= page.len(),
        !entry_at(page, log_end(page, at)),
        live_units(page, at).len() <= log_end(page, at) - at,
    decreases page.len() - at,
{
    if entry_at(page, at) {
        lemma_log_end(page, entry_end(page, at));
    }
}

/// The end of the log from `at` on depends on no unit before `at`, and
/// neither does what a scan from `at` finds.
pub proof fn lemma_log_behind(page: Seq<u8>, other: Seq<u8>, address: u8, at: int)
    requires
        same_from(page, other, at),
        1 <= at,
    ensures
        log_end(page, at) == log_end(other, at),
        lookup(page, address, at) == lookup(other, address, at),
        occurrences(page, address, at) == occurrences(other, address, at),
    decreases page.len() - at,
{
    if at + HEADER_UNITS <= page.len() {
        lemma_entry_behind(page, other, at);
        if entry_at(page, at) {
            lemma_log_behind(page, other, address, entry_end(page, at));
        }
    }
}

/// The scan for free space from `at` reads no unit before `at`.
pub proof fn lemma_free_slot_behind(page: Seq<u8>, other: Seq<u8>, room: int, at: int)
    requires
        page.len() == other.len(),
        forall|i: int| at <= i < page.len() ==> page[i] == other[i],
    ensures
        free_slot(page, room, at) == free_slot(other, room, at),
    decreases page.len() - at,
{
    if at >= 1 && room >= HEADER_UNITS && at + room <= page.len() && page[at] != FREE {
        assert(page.subrange(at + 1, at + 5) =~= other.subrange(at + 1, at + 5));
        if entry_end(page, at) <= page.len() {
            lemma_free_slot_behind(page, other, room, entry_end(page, at));
        }
    }
}

/// Free space that the scan finds is a free address unit behind the start of
/// the scan, with the room asked for behind it.
pub proof fn lemma_free_slot_fits(page: Seq<u8>, room: int, at: int)
    ensures
        free_slot(page, room, at) matches Some(slot) ==> {
            &&& 1 <= at <= slot
            &&& HEADER_UNITS <= room
            &&& slot + room <= page.len()
            &&& page[slot] == FREE
        },
    decreases page.len() - at,
{
    if at >= 1 && room >= HEADER_UNITS && at + room <= page.len() && page[at] != FREE
        && entry_end(page, at) <= page.len() {
        lemma_free_slot_fits(page, room, entry_end(page, at));
    }
}

/// On a page that holds nothing behind its log, the scan for free space gets
/// to the end of the log, and finds room there or nowhere.
pub proof fn lemma_free_slot_settled(page: Seq<u8>, room: int, at: int)
    requires
        1 <= at,
        HEADER_UNITS <= room,
        forall|i: int| log_end(page, at) <= i < page.len() ==> page[i] == FREE,
    ensures
        free_slot(page, room, at) == if log_end(page, at) + room <= page.len() {
            Some(log_end(page, at))
        } else {
            None
        },
    decreases page.len() - at,
{
    lemma_log_end(page, at);
    if at + room <= page.len() && page[at] != FREE {
        if entry_end(page, at) <= page.len() {
            lemma_free_slot_settled(page, room, entry_end(page, at));
        }
    }
}

/// The scan for free space changes nothing but address units at or behind its
/// start that hold `address`, and those it turns into tombstones.
pub proof fn lemma_tombstoned_units(page: Seq<u8>, address: u8, room: int, at: int)
    ensures
        tombstoned(page, address, room, at).len() == page.len(),
        forall|i: int|
            0 <= i < page.len() ==> {
                let unit = #[trigger] tombstoned(page, address, room, at)[i];
                unit == page[i] || (at <= i && page[i] == address && unit == TOMBSTONE)
            },
    decreases page.len() - at,
{
    if at >= 1 && room >= HEADER_UNITS && at + room <= page.len() && page[at] != FREE
        && entry_end(page, at) <= page.len() {
        let marked = if page[at] == address {
            page.update(at, TOMBSTONE)
        } else {
            page
        };
        lemma_tombstoned_units(marked, address, room, entry_end(page, at));
    }
}

/// Turning entries for `address` into tombstones leaves the log where it
/// was, and leaves every other variable with its value and its live
/// entries.
pub proof fn lemma_tombstoned_keeps_log(
    page: Seq<u8>,
    address: u8,
    room: int,
    at: int,
    other: u8,
)
    requires
        1 <= at,
        address != FREE,
        other != address,
        other != TOMBSTONE,
    ensures
        log_end(tombstoned(page, address, room, at), at) == log_end(page, at),
        lookup(tombstoned(page, address, room, at), other, at) == lookup(page, other, at),
        occurrences(tombstoned(page, address, room, at), other, at) == occurrences(
            page,
            other,
            at,
        ),
    decreases page.len() - at,
{
    let scanned = tombstoned(page, address, room, at);
    lemma_tombstoned_units(page, address, room, at);
    if room >= HEADER_UNITS && at + room <= page.len() && page[at] != FREE {
        let end = entry_end(page, at);
        let marked = if page[at] == address {
            page.update(at, TOMBSTONE)
        } else {
            page
        };
        assert(same_from(page, marked, at + 1));
        assert(marked.subrange(at + 1, at + 5) =~= page.subrange(at + 1, at + 5));
        if end <= page.len() {
            lemma_tombstoned_units(marked, address, room, end);
            lemma_tombstoned_keeps_log(marked, address, room, end, other);
            assert(scanned.subrange(at + 1, at + 5) =~= page.subrange(at + 1, at + 5));
            assert(payload(scanned, at) =~= payload(page, at));
            lemma_log_behind(marked, page, other, end);
        }
    }
}

/// Turning entries for `address` into tombstones adds no live entry for it,
/// and leaves none where the scan gets to free space.
pub proof fn lemma_tombstoned_clears(page: Seq<u8>, address: u8, room: int, at: int)
    requires
        1 <= at,
        !reserved(address),
    ensures
        occurrences(tombstoned(page, address, room, at), address, at) <= occurrences(
            page,
            address,
            at,
        ),
        free_slot(page, room, at) is Some ==> occurrences(
            tombstoned(page, address, room, at),
            address,
            at,
        ) == 0,
    decreases page.len() - at,
{
    let scanned = tombstoned(page, address, room, at);
    lemma_tombstoned_units(page, address, room, at);
    if room >= HEADER_UNITS && at + room <= page.len() && page[at] != FREE {
        let end = entry_end(page, at);
        let marked = if page[at] == address {
            page.update(at, TOMBSTONE)
        } else {
            page
        };
        assert(same_from(page, marked, at + 1));
        assert(marked.subrange(at + 1, at + 5) =~= page.subrange(at + 1, at + 5));
        if end <= page.len() {
            lemma_tombstoned_units(marked, address, room, end);
            lemma_tombstoned_clears(marked, address, room, end);
            lemma_free_slot_behind(page, marked, room, end);
            assert(scanned.subrange(at + 1, at + 5) =~= page.subrange(at + 1, at + 5));
            lemma_log_behind(marked, page, address, end);
        }
    }
}

/// Turning entries into tombstones does not add to the live entries.
pub proof fn lemma_tombstoned_live_units(page: Seq<u8>, address: u8, room: int, at: int)
    requires
        1 <= at,
        address != FREE,
    ensures
        live_units(tombstoned(page, address, room, at), at).len() <= live_units(page, at).len(),
    decreases page.len() - at,
{
    let scanned = tombstoned(page, address, room, at);
    lemma_tombstoned_units(page, address, room, at);
    if room >= HEADER_UNITS && at + room <= page.len() && page[at] != FREE {
        let end = entry_end(page, at);
        let marked = if page[at] == address {
            page.update(at, TOMBSTONE)
        } else {
            page
        };
        assert(marked.subrange(at + 1, at + 5) =~= page.subrange(at + 1, at + 5));
        if end <= page.len() {
            lemma_tombstoned_units(marked, address, room, end);
            lemma_tombstoned_live_units(marked, address, room, end);
            assert(scanned.subrange(at + 1, at + 5) =~= page.subrange(at + 1, at + 5));
            assert(same_from(marked, page, end));
            lemma_live_units_behind(marked, page, end);
        }
    }
}

/// The live entries from `at` on take no more room than the log that they
/// come from.
pub proof fn lemma_live_units_len(page: Seq<u8>, at: int)
    requires
        1 <= at,
    ensures
        at <= page.len() ==> live_units(page, at).len() <= page.len() - at,
        at > page.len() ==> live_units(page, at).len() == 0,
    decreases page.len() - at,
{
    if entry_at(page, at) {
        lemma_live_units_len(page, entry_end(page, at));
    }
}

/// The live entries from `at` on depend on no unit before `at`.
pub proof fn lemma_live_units_behind(page: Seq<u8>, other: Seq<u8>, at: int)
    requires
        page.len() == other.len(),
        forall|i: int| at <= i < page.len() ==> page[i] == other[i],
    ensures
        live_units(page, at) == live_units(other, at),
    decreases page.len() - at,
{
    if 1 <= at && at + HEADER_UNITS <= page.len() {
        assert(page.subrange(at + 1, at + 5) =~= other.subrange(at + 1, at + 5));
        if entry_at(page, at) {
            let end = entry_end(page, at);
            assert(page.subrange(at, end) =~= other.subrange(at, end));
            lemma_live_units_behind(page, other, end);
        }
    }
}

/// The live entries of a log do not depend on the header unit of the page.
pub proof fn lemma_live_units_skip_header(page: Seq<u8>, other: Seq<u8>)
    requires
        page.len() == other.len(),
        forall|i: int| 1 <= i < page.len() ==> page[i] == other[i],
    ensures
        live_units(page, 1) == live_units(other, 1),
{
    lemma_live_units_behind(page, other, 1);
}

/// The write path leaves a page its length and its header unit.
pub proof fn lemma_write_in_page_keeps_header(page: Seq<u8>, address: u8, data: Seq<u8>)
    requires
        page.len() > 0,
    ensures
        write_in_page(page, address, data).0.len() == page.len(),
        write_in_page(page, address, data).0[0] == page[0],
{
    let room = HEADER_UNITS + data.len();
    lemma_tombstoned_units(page, address, room, 1);
    lemma_free_slot_fits(page, room, 1);
}

/// An entry that the write path has put into a page is the one that a scan
/// for its address finds, with the payload that was written.
pub proof fn lemma_written_entry_is_found(page: Seq<u8>, address: u8, data: Seq<u8>, at: int)
    requires
        !reserved(address),
        page.len() <= u32::MAX,
        free_slot(page, HEADER_UNITS + data.len(), at) is Some,
    ensures
        lookup(
            overlay(
                tombstoned(page, address, HEADER_UNITS + data.len(), at),
                free_slot(page, HEADER_UNITS + data.len(), at)->Some_0,
                entry_units(address, data),
            ),
            address,
            at,
        ) == Some(data),
    decreases page.len() - at,
{
    let room = HEADER_UNITS + data.len();
    let slot = free_slot(page, room, at)->Some_0;
    let scanned = tombstoned(page, address, room, at);
    let written = overlay(scanned, slot, entry_units(address, data));
    lemma_free_slot_fits(page, room, at);
    lemma_tombstoned_units(page, address, room, at);
    if page[at] == FREE {
        lemma_le_round_trip(data.len() as u32);
        assert(written.subrange(at + 1, at + 5) =~= le_units(data.len() as u32));
        assert(payload(written, at) =~= data);
    } else {
        let end = entry_end(page, at);
        let marked = if page[at] == address {
            page.update(at, TOMBSTONE)
        } else {
            page
        };
        lemma_free_slot_behind(page, marked, room, end);
        lemma_free_slot_fits(marked, room, end);
        lemma_tombstoned_units(marked, address, room, end);
        lemma_written_entry_is_found(marked, address, data, end);
        assert(written.subrange(at + 1, at + 5) =~= page.subrange(at + 1, at + 5));
    }
}

/// An entry programmed at the end of the log makes the log that much longer
/// and adds one live entry for its address; it leaves every other variable
/// with its value.
pub proof fn lemma_appended(page: Seq<u8>, address: u8, data: Seq<u8>, other: u8, at: int)
    requires
        1 <= at,
        address != FREE,
        page.len() <= u32::MAX,
        log_end(page, at) + HEADER_UNITS + data.len() <= page.len(),
        forall|i: int| log_end(page, at) <= i < page.len() ==> page[i] == FREE,
    ensures
        log_end(overlay(page, log_end(page, at), entry_units(address, data)), at) == log_end(
            page,
            at,
        ) + HEADER_UNITS + data.len(),
        other != address ==> lookup(
            overlay(page, log_end(page, at), entry_units(address, data)),
            other,
            at,
        ) == lookup(page, other, at),
        occurrences(overlay(page, log_end(page, at), entry_units(address, data)), other, at)
            == occurrences(page, other, at) + if other == address {
            1nat
        } else {
            0nat
        },
    decreases page.len() - at,
{
    let end = log_end(page, at);
    let room = HEADER_UNITS + data.len();
    let written = overlay(page, end, entry_units(address, data));
    lemma_log_end(page, at);
    if entry_at(page, at) {
        let next = entry_end(page, at);
        lemma_log_end(page, next);
        lemma_appended(page, address, data, other, next);
        assert(log_end(page, next) == end);
        assert(written.subrange(at + 1, at + 5) =~= page.subrange(at + 1, at + 5));
        assert(payload(written, at) =~= payload(page, at));
        assert(entry_at(written, at));
        assert(entry_end(written, at) == next);
    } else {
        lemma_le_round_trip(data.len() as u32);
        assert(written.subrange(at + 1, at + 5) =~= le_units(data.len() as u32));
        assert(entry_at(written, at));
        assert(entry_end(written, at) == at + room);
        assert(!entry_at(written, at + room));
        assert(log_end(written, at + room) == at + room);
        assert(lookup(written, other, at + room) is None);
        assert(occurrences(written, other, at + room) == 0);
    }
}

/// Live entries that were copied to `to`, with nothing but free units behind
/// them, form a log that ends where they end and that holds for every
/// address the value, and as many live entries, as the log that they were
/// copied from.
pub proof fn lemma_copied_log(source: Seq<u8>, target: Seq<u8>, other: u8, at: int, to: int)
    requires
        1 <= to <= at,
        source.len() == target.len(),
        other != TOMBSTONE,
        target.subrange(to, to + live_units(source, at).len()) == live_units(source, at),
        forall|i: int| to + live_units(source, at).len() <= i < target.len() ==> target[i] == FREE,
    ensures
        log_end(target, to) == to + live_units(source, at).len(),
        lookup(target, other, to) == lookup(source, other, at),
        occurrences(target, other, to) == occurrences(source, other, at),
    decreases source.len() - at,
{
    lemma_log_end(source, at);
    if entry_at(source, at) {
        let end = entry_end(source, at);
        lemma_log_end(source, end);
        if source[at] == TOMBSTONE {
            lemma_copied_log(source, target, other, end, to);
        } else {
            let entry = source.subrange(at, end);
            let rest = live_units(source, end);
            let live = live_units(source, at);
            let copy = target.subrange(to, to + live.len());
            assert(live == entry + rest);
            assert forall|i: int| 0 <= i < end - at implies #[trigger] target[to + i]
                == source[at + i] by {
                assert(copy[i] == live[i]);
                assert(entry[i] == source[at + i]);
            }
            assert(target[to + 0] == source[at + 0]);
            assert(target.subrange(to + 1, to + 5) =~= source.subrange(at + 1, at + 5)) by {
                assert(target[to + 1] == source[at + 1]);
                assert(target[to + 2] == source[at + 2]);
                assert(target[to + 3] == source[at + 3]);
                assert(target[to + 4] == source[at + 4]);
            }
            assert(payload(target, to) =~= payload(source, at)) by {
                assert forall|i: int| 0 <= i < end - at - 5 implies #[trigger] payload(
                    target,
                    to,
                )[i] == payload(source, at)[i] by {
                    assert(target[to + (5 + i)] == source[at + (5 + i)]);
                }
            }
            assert(target.subrange(to + (end - at), to + (end - at) + rest.len()) =~= rest) by {
                assert forall|i: int| 0 <= i < rest.len() implies #[trigger] target.subrange(
                    to + (end - at),
                    to + (end - at) + rest.len(),
                )[i] == rest[i] by {
                    assert(copy[(end - at) + i] == live[(end - at) + i]);
                }
            }
            lemma_copied_log(source, target, other, end, to + (end - at));
        }
    } else {
        assert(live_units(source, at).len() == 0);
    }
}

/// A scan finds a value for an address exactly if the log holds a live entry
/// for it.
pub proof fn lemma_lookup_finds_live_entry(page: Seq<u8>, address: u8, at: int)
    requires
        1 <= at,
    ensures
        lookup(page, address, at) is Some <==> occurrences(page, address, at) > 0,
    decreases page.len() - at,
{
    if entry_at(page, at) && page[at] != address {
        lemma_lookup_finds_live_entry(page, address, entry_end(page, at));
    }
}

} // verus!
