//! Facts about the steps of the engine that the laws of the store rest on.

use crate::codec::{FREE, HEADER_UNITS, TOMBSTONE, reserved};
use crate::error::Error;
use crate::log::{
    entry_at, entry_units, live_units, log_end, lookup, occurrences, overlay, settled, tombstoned,
    unique, write_in_page,
};
use crate::log_lemmas::{
    lemma_appended, lemma_copied_log, lemma_entry_units_len, lemma_free_slot_settled,
    lemma_live_units_len, lemma_log_end, lemma_tombstoned_clears, lemma_tombstoned_keeps_log,
    lemma_tombstoned_units, lemma_write_in_page_keeps_header,
};
use crate::model::{
    collect_outcome, compacted, cycles_run, erased_page, formatted, intact, read_outcome, readied,
    working_page,
};
use crate::page::{
    ACTIVE, discover, first_used, lemma_discover_by_headers, lemma_first_used, well_formed,
};
use vstd::prelude::*;

verus! {

/// A formatted store has the shape of the store it was made from, page 0 is
/// its active page, and it is the same for any two stores of one shape.
pub proof fn lemma_formatted(pages: Seq<Seq<u8>>, count: nat)
    requires
        well_formed(pages, count),
    ensures
        well_formed(formatted(pages), count),
        formatted(pages)[0].len() == pages[0].len(),
        discover(formatted(pages)) == Ok::<Option<usize>, Error>(Some(0)),
        formatted(pages)[0] == erased_page(pages[0].len()).update(0, ACTIVE),
        forall|i: int|
            1 <= i < count ==> #[trigger] formatted(pages)[i] == erased_page(pages[0].len()),
{
    assert(formatted(pages)[0][0] == ACTIVE);
}

/// Making a store ready keeps its shape and leaves it with an active page,
/// which is the page that the engine then works on.
pub proof fn lemma_readied(pages: Seq<Seq<u8>>, count: nat)
    requires
        well_formed(pages, count),
        working_page(pages) is Ok,
    ensures
        well_formed(readied(pages), count),
        readied(pages)[0].len() == pages[0].len(),
        working_page(pages)->Ok_0 < count,
        discover(readied(pages)) == Ok::<Option<usize>, Error>(Some(working_page(pages)->Ok_0)),
        readied(pages)[working_page(pages)->Ok_0 as int][0] == ACTIVE,
        readied(readied(pages)) == readied(pages),
{
    lemma_formatted(pages, count);
    lemma_first_used(pages, 0);
    match discover(pages) {
        Ok(Some(index)) => {
            assert(readied(pages) == pages);
            assert(pages[index as int][0] == ACTIVE);
        },
        _ => {
            assert(readied(pages) == formatted(pages));
            assert(formatted(pages)[0][0] == ACTIVE);
        },
    }
}

/// An erased store is intact, and so is a formatted one.
pub proof fn lemma_fresh_store_is_intact(pages: Seq<Seq<u8>>, count: nat)
    requires
        well_formed(pages, count),
    ensures
        intact(formatted(pages), count),
        (forall|i: int| 0 <= i < count ==> #[trigger] pages[i] == erased_page(pages[0].len()))
            ==> intact(pages, count),
{
    lemma_formatted(pages, count);
    let first = formatted(pages)[0];
    assert(!entry_at(first, 1));
    assert(settled(first));
    assert(unique(first));
    if forall|i: int| 0 <= i < count ==> #[trigger] pages[i] == erased_page(pages[0].len()) {
        lemma_first_used(pages, 0);
        let used = first_used(pages, 0);
        if used < count {
            assert(pages[used] == erased_page(pages[0].len()));
        }
    }
}

/// Making an intact store ready leaves it intact, with an active page.
pub proof fn lemma_readied_intact(pages: Seq<Seq<u8>>, count: nat)
    requires
        intact(pages, count),
    ensures
        working_page(pages) is Ok,
        intact(readied(pages), count),
        discover(readied(pages)) == Ok::<Option<usize>, Error>(Some(working_page(pages)->Ok_0)),
        settled(readied(pages)[working_page(pages)->Ok_0 as int]),
        unique(readied(pages)[working_page(pages)->Ok_0 as int]),
{
    lemma_readied(pages, count);
    lemma_fresh_store_is_intact(pages, count);
}

/// A collection cycle does to a store what it does to the store made ready.
pub proof fn lemma_collect_ready(pages: Seq<Seq<u8>>, count: nat)
    requires
        well_formed(pages, count),
        working_page(pages) is Ok,
    ensures
        collect_outcome(readied(pages)) == collect_outcome(pages),
{
    lemma_readied(pages, count);
}

/// What the write path does to a page that holds nothing behind its log: the
/// page still holds nothing behind its log, the entry found room exactly if
/// there was room behind the log, and every other variable has the value
/// that it had. No address has two live entries afterwards if none had
/// before.
pub proof fn lemma_write_in_settled_page(page: Seq<u8>, address: u8, data: Seq<u8>)
    requires
        0 < page.len() <= u32::MAX,
        settled(page),
        !reserved(address),
    ensures
        settled(write_in_page(page, address, data).0),
        unique(page) ==> unique(write_in_page(page, address, data).0),
        write_in_page(page, address, data).1 <==> log_end(page, 1) + HEADER_UNITS + data.len()
            <= page.len(),
        forall|other: u8|
            other != address && !reserved(other) ==> lookup(
                write_in_page(page, address, data).0,
                other,
                1,
            ) == #[trigger] lookup(page, other, 1),
{
    let room = HEADER_UNITS + data.len();
    let end = log_end(page, 1);
    let scanned = tombstoned(page, address, room, 1);
    let written = write_in_page(page, address, data).0;
    let witness: u8 = if address == 1 {
        2
    } else {
        1
    };
    lemma_log_end(page, 1);
    lemma_tombstoned_units(page, address, room, 1);
    lemma_tombstoned_keeps_log(page, address, room, 1, witness);
    lemma_free_slot_settled(page, room, 1);
    assert(settled(scanned)) by {
        assert forall|i: int| log_end(scanned, 1) <= i < scanned.len() implies scanned[i]
            == FREE by {
            assert(page[i] == FREE);
        }
    }
    if end + room <= page.len() {
        lemma_appended(scanned, address, data, witness, 1);
        lemma_entry_units_len(address, data);
        assert(written == overlay(scanned, end, entry_units(address, data)));
        assert(settled(written)) by {
            assert forall|i: int| log_end(written, 1) <= i < written.len() implies written[i]
                == FREE by {
                assert(written[i] == scanned[i]);
                assert(page[i] == FREE);
            }
        }
    }
    assert forall|other: u8| other != address && !reserved(other) implies lookup(
        written,
        other,
        1,
    ) == #[trigger] lookup(page, other, 1) by {
        lemma_tombstoned_keeps_log(page, address, room, 1, other);
        if end + room <= page.len() {
            lemma_appended(scanned, address, data, other, 1);
        }
    }
    if unique(page) {
        assert forall|other: u8| other != TOMBSTONE implies occurrences(written, other, 1)
            <= 1 by {
            assert(occurrences(page, other, 1) <= 1);
            if other == address {
                lemma_tombstoned_clears(page, address, room, 1);
            } else {
                lemma_tombstoned_keeps_log(page, address, room, 1, other);
            }
            if end + room <= page.len() {
                lemma_appended(scanned, address, data, other, 1);
            }
        }
    }
}

/// The write path on the active page of an intact store leaves the store
/// intact, with the same active page, and leaves every variable but the one
/// written with its value.
pub proof fn lemma_write_in_active_page(
    pages: Seq<Seq<u8>>,
    count: nat,
    address: u8,
    data: Seq<u8>,
) -> (after: Seq<Seq<u8>>)
    requires
        intact(pages, count),
        discover(pages) matches Ok(Some(_)),
        !reserved(address),
    ensures
        after == pages.update(
            discover(pages)->Ok_0->Some_0 as int,
            write_in_page(pages[discover(pages)->Ok_0->Some_0 as int], address, data).0,
        ),
        intact(after, count),
        discover(after) == discover(pages),
        after[0].len() == pages[0].len(),
        forall|other: u8|
            other != address ==> read_outcome(after, other) == #[trigger] read_outcome(
                pages,
                other,
            ),
{
    let active = discover(pages)->Ok_0->Some_0 as int;
    lemma_first_used(pages, 0);
    let page = pages[active];
    assert(page.len() == pages[0].len());
    let after = pages.update(active, write_in_page(page, address, data).0);
    lemma_write_in_page_keeps_header(page, address, data);
    lemma_write_in_settled_page(page, address, data);
    assert forall|i: int| 0 <= i < after.len() implies (#[trigger] after[i])[0]
        == pages[i][0] by {}
    lemma_discover_by_headers(after, pages);
    assert forall|i: int| 0 <= i < after.len() implies (#[trigger] after[i]).len()
        == after[0].len() by {
        assert(pages[i].len() == pages[0].len());
    }
    assert forall|i: int| 0 <= i < count && i != active implies #[trigger] after[i]
        == erased_page(after[0].len()) by {
        assert(after[i] == pages[i]);
    }
    after
}

/// The page that a collection cycle fills from an erased one holds the live
/// entries and nothing behind them, and holds for every address the value
/// that the page it was filled from held.
pub proof fn lemma_compacted_page(source: Seq<u8>)
    requires
        0 < source.len(),
    ensures
        compacted(source, erased_page(source.len())).len() == source.len(),
        settled(compacted(source, erased_page(source.len()))),
        unique(source) ==> unique(compacted(source, erased_page(source.len()))),
        log_end(compacted(source, erased_page(source.len())), 1) == 1 + live_units(
            source,
            1,
        ).len(),
        forall|other: u8|
            !reserved(other) ==> lookup(compacted(source, erased_page(source.len())), other, 1)
                == #[trigger] lookup(source, other, 1),
{
    let target = compacted(source, erased_page(source.len()));
    let live = live_units(source, 1);
    lemma_live_units_len(source, 1);
    assert(target.subrange(1, 1 + live.len() as int) =~= live);
    lemma_copied_log(source, target, 1, 1, 1);
    assert forall|other: u8| !reserved(other) implies lookup(target, other, 1)
        == #[trigger] lookup(source, other, 1) by {
        lemma_copied_log(source, target, other, 1, 1);
    }
    if unique(source) {
        assert forall|other: u8| other != TOMBSTONE implies occurrences(target, other, 1)
            <= 1 by {
            assert(occurrences(source, other, 1) <= 1);
            lemma_copied_log(source, target, other, 1, 1);
        }
    }
}

/// Where a number of cycles run, any smaller number of them run too.
pub proof fn lemma_cycles_run_before(pages: Seq<Seq<u8>>, cycles: nat, fewer: nat)
    requires
        fewer <= cycles,
        cycles_run(pages, cycles),
    ensures
        cycles_run(pages, fewer),
    decreases cycles,
{
    if fewer < cycles {
        lemma_cycles_run_before(pages, (cycles - 1) as nat, fewer);
    }
}

} // verus!
