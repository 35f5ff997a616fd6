//! What holds of the store across its operations.
//!
//! Each law is a proof function over the values of `model`: its parameters
//! are the store and the arguments that the law speaks of.

use crate::codec::{HEADER_UNITS, reserved};
use crate::error::Error;
use crate::log::{entry_at, live_units, log_end, occurrences, tombstoned, write_in_page};
use crate::log_lemmas::{
    lemma_log_end, lemma_lookup_finds_live_entry, lemma_tombstoned_keeps_log,
    lemma_tombstoned_live_units, lemma_tombstoned_units, lemma_write_in_page_keeps_header,
    lemma_written_entry_is_found,
};
use crate::model::{
    after_cycles, collect_erasures, collect_outcome, compacted, contents, cycles_erasures,
    cycles_run, erased_page, formatted, intact, next_page, read_outcome, readied, working_page,
    write_erasures, write_outcome,
};
use crate::model_lemmas::{
    lemma_collect_ready, lemma_compacted_page, lemma_cycles_run_before, lemma_formatted,
    lemma_readied, lemma_readied_intact, lemma_write_in_active_page, lemma_write_in_settled_page,
};
use crate::page::{
    ACTIVE, ERASED, discover, first_used, lemma_discover_by_headers, lemma_first_used,
    lemma_first_used_is, well_formed,
};
use vstd::prelude::*;

verus! {

/// Round trip. A value that was written is the value that is read back.
pub proof fn lemma_write_then_read(pages: Seq<Seq<u8>>, count: nat, address: u8, data: Seq<u8>)
    requires
        well_formed(pages, count),
        write_outcome(pages, address, data).1 is Ok,
    ensures
        read_outcome(write_outcome(pages, address, data).0, address) == Ok::<
            Option<Seq<u8>>,
            Error,
        >(Some(data)),
{
    lemma_readied(pages, count);
    let room = HEADER_UNITS + data.len();
    let ready = readied(pages);
    let active = working_page(pages)->Ok_0 as int;
    let first = write_in_page(ready[active], address, data);
    let scanned = ready.update(active, first.0);
    assert(ready[active].len() == ready[0].len());
    lemma_write_in_page_keeps_header(ready[active], address, data);
    assert forall|i: int| 0 <= i < scanned.len() implies (#[trigger] scanned[i])[0]
        == ready[i][0] by {}
    lemma_discover_by_headers(scanned, ready);
    if first.1 {
        lemma_written_entry_is_found(ready[active], address, data, 1);
    } else {
        assert forall|i: int| 0 <= i < scanned.len() implies (#[trigger] scanned[i]).len()
            == scanned[0].len() by {
            assert(ready[i].len() == ready[0].len());
        }
        let cycle = collect_outcome(scanned);
        let moved = cycle.1->Ok_0 as int;
        lemma_collection_rotates(scanned, count);
        assert(cycle.0[moved].len() == cycle.0[0].len());
        let second = write_in_page(cycle.0[moved], address, data);
        let last = cycle.0.update(moved, second.0);
        lemma_write_in_page_keeps_header(cycle.0[moved], address, data);
        assert forall|i: int| 0 <= i < last.len() implies (#[trigger] last[i])[0]
            == cycle.0[i][0] by {}
        lemma_discover_by_headers(last, cycle.0);
        lemma_written_entry_is_found(cycle.0[moved], address, data, 1);
    }
}

/// Absence. A store on which nothing was written yet, erased or formatted,
/// holds no value for any address.
pub proof fn lemma_fresh_store_holds_nothing(pages: Seq<Seq<u8>>, count: nat, address: u8)
    requires
        well_formed(pages, count),
        forall|i: int| 0 <= i < count ==> #[trigger] pages[i] == erased_page(pages[0].len()),
        !reserved(address),
    ensures
        read_outcome(pages, address) == Ok::<Option<Seq<u8>>, Error>(None),
        read_outcome(formatted(pages), address) == Ok::<Option<Seq<u8>>, Error>(None),
{
    lemma_first_used(pages, 0);
    let first = first_used(pages, 0);
    if first < count {
        assert(pages[first] == erased_page(pages[0].len()));
    }
    lemma_formatted(pages, count);
}

/// Reserved addresses. Reading or writing one of the two reserved addresses
/// fails, whatever the store holds, and leaves the store as it is.
pub proof fn lemma_reserved_address_is_refused(pages: Seq<Seq<u8>>, address: u8, data: Seq<u8>)
    requires
        reserved(address),
    ensures
        read_outcome(pages, address) == Err::<Option<Seq<u8>>, Error>(Error::ReservedAddress),
        write_outcome(pages, address, data).1 == Err::<(), Error>(Error::ReservedAddress),
        write_outcome(pages, address, data).0 == pages,
{
}

/// Capacity. A value that would not fit into an empty page is refused: the
/// write fails, and if nothing else is wrong with the store, it fails with
/// `OutOfSpace` after a collection cycle that was of no use.
pub proof fn lemma_oversized_value_is_refused(
    pages: Seq<Seq<u8>>,
    count: nat,
    address: u8,
    data: Seq<u8>,
)
    requires
        well_formed(pages, count),
        1 + HEADER_UNITS + data.len() > pages[0].len(),
    ensures
        write_outcome(pages, address, data).1 is Err,
        !reserved(address) && collect_outcome(pages).1 is Ok ==> {
            &&& write_outcome(pages, address, data).1 == Err::<(), Error>(Error::OutOfSpace)
            &&& write_outcome(pages, address, data).0 == collect_outcome(pages).0
        },
{
    if !reserved(address) && working_page(pages) is Ok {
        lemma_readied(pages, count);
        let ready = readied(pages);
        let active = working_page(pages)->Ok_0 as int;
        assert(ready[active].len() == ready[0].len());
        let scanned = ready.update(active, write_in_page(ready[active], address, data).0);
        assert(scanned =~= ready);
        lemma_collect_ready(pages, count);
        if collect_outcome(scanned).1 is Ok {
            lemma_collection_rotates(scanned, count);
            let cycle = collect_outcome(scanned);
            let moved = cycle.1->Ok_0 as int;
            assert(cycle.0[moved].len() == cycle.0[0].len());
            assert(cycle.0.update(moved, write_in_page(cycle.0[moved], address, data).0)
                =~= cycle.0);
        }
    }
}

/// Room. A write to an intact store of two pages or more succeeds exactly if
/// the new entry fits behind the entries that stay live once they are
/// packed; it fails with `OutOfSpace` otherwise. That the entry fits behind
/// all the entries that are live before the write is enough.
pub proof fn lemma_write_succeeds_when_room(
    pages: Seq<Seq<u8>>,
    count: nat,
    address: u8,
    data: Seq<u8>,
)
    requires
        intact(pages, count),
        count > 1,
        !reserved(address),
    ensures
        working_page(pages) is Ok,
        ({
            let page = readied(pages)[working_page(pages)->Ok_0 as int];
            let room = HEADER_UNITS + data.len();
            let kept = live_units(tombstoned(page, address, room, 1), 1).len();
            &&& write_outcome(pages, address, data).1 is Ok <==> 1 + kept + room <= page.len()
            &&& 1 + kept + room > page.len() ==> write_outcome(pages, address, data).1 == Err::<
                (),
                Error,
            >(Error::OutOfSpace)
            &&& kept <= live_units(page, 1).len()
        }),
{
    lemma_readied_intact(pages, count);
    lemma_readied(pages, count);
    let ready = readied(pages);
    let active = working_page(pages)->Ok_0 as int;
    let page = ready[active];
    let room = HEADER_UNITS + data.len();
    let scanned_page = tombstoned(page, address, room, 1);
    assert(page.len() == ready[0].len());
    lemma_tombstoned_live_units(page, address, room, 1);
    lemma_write_in_settled_page(page, address, data);
    lemma_log_end(scanned_page, 1);
    let witness: u8 = if address == 1 {
        2
    } else {
        1
    };
    lemma_tombstoned_keeps_log(page, address, room, 1, witness);
    let scanned = lemma_write_in_active_page(ready, count, address, data);
    if !write_in_page(page, address, data).1 {
        lemma_collect_keeps_variables(scanned, count);
        lemma_collection_rotates(scanned, count);
        lemma_readied(scanned, count);
        let cycle = collect_outcome(scanned);
        let moved = cycle.1->Ok_0 as int;
        assert(readied(scanned) == scanned);
        assert(scanned[moved] == erased_page(scanned[0].len()));
        assert(scanned[active] == scanned_page);
        lemma_tombstoned_units(page, address, room, 1);
        lemma_compacted_page(scanned_page);
        lemma_write_in_settled_page(cycle.0[moved], address, data);
    }
}

/// A write to an intact store of one page succeeds exactly if the new entry
/// fits behind the log; it fails for want of a page to move to otherwise.
pub proof fn lemma_write_to_single_page(pages: Seq<Seq<u8>>, address: u8, data: Seq<u8>)
    requires
        intact(pages, 1),
        !reserved(address),
    ensures
        write_outcome(pages, address, data).1 is Ok <==> log_end(readied(pages)[0], 1)
            + HEADER_UNITS + data.len() <= pages[0].len(),
        !(write_outcome(pages, address, data).1 is Ok) ==> write_outcome(
            pages,
            address,
            data,
        ).1 == Err::<(), Error>(Error::GcInvariantViolated),
{
    lemma_readied_intact(pages, 1);
    lemma_readied(pages, 1);
    let ready = readied(pages);
    lemma_write_in_settled_page(ready[0], address, data);
    let scanned = lemma_write_in_active_page(ready, 1, address, data);
    lemma_collect_keeps_variables(scanned, 1);
}

/// Other variables. A write to an intact store leaves the store intact and
/// leaves every variable but the one written with its value, whether the
/// write succeeds or not.
pub proof fn lemma_write_keeps_other_variables(
    pages: Seq<Seq<u8>>,
    count: nat,
    address: u8,
    data: Seq<u8>,
)
    requires
        intact(pages, count),
    ensures
        intact(write_outcome(pages, address, data).0, count),
        forall|other: u8|
            other != address ==> read_outcome(write_outcome(pages, address, data).0, other)
                == #[trigger] read_outcome(pages, other),
{
    if !reserved(address) {
        lemma_readied_intact(pages, count);
        lemma_collect_keeps_variables(pages, count);
        let ready = readied(pages);
        let active = working_page(pages)->Ok_0 as int;
        assert forall|other: u8| read_outcome(ready, other) == #[trigger] read_outcome(
            pages,
            other,
        ) by {
            if discover(pages) == Ok::<Option<usize>, Error>(None) && !reserved(other) {
                lemma_formatted(pages, count);
                assert(!entry_at(ready[0], 1));
            }
        }
        let scanned = lemma_write_in_active_page(ready, count, address, data);
        if !write_in_page(ready[active], address, data).1 {
            lemma_collect_keeps_variables(scanned, count);
            let cycle = collect_outcome(scanned);
            if cycle.1 is Ok {
                lemma_collection_rotates(scanned, count);
                lemma_write_in_active_page(cycle.0, count, address, data);
            }
        }
    }
}

/// One entry per variable. In an intact store no address has two live
/// entries, and the addresses that have one are those that hold a value.
pub proof fn lemma_one_live_entry_per_variable(pages: Seq<Seq<u8>>, count: nat, address: u8)
    requires
        intact(pages, count),
        discover(pages) matches Ok(Some(_)),
        !reserved(address),
    ensures
        occurrences(pages[discover(pages)->Ok_0->Some_0 as int], address, 1) <= 1,
        occurrences(pages[discover(pages)->Ok_0->Some_0 as int], address, 1) == 1
            <==> contents(pages).contains_key(address),
{
    lemma_lookup_finds_live_entry(pages[discover(pages)->Ok_0->Some_0 as int], address, 1);
}

/// Key and value. A write that succeeds on an intact store puts the value
/// under its address and changes nothing else of what the store holds.
pub proof fn lemma_write_inserts(pages: Seq<Seq<u8>>, count: nat, address: u8, data: Seq<u8>)
    requires
        intact(pages, count),
        write_outcome(pages, address, data).1 is Ok,
    ensures
        contents(write_outcome(pages, address, data).0) == contents(pages).insert(address, data),
{
    let after = write_outcome(pages, address, data).0;
    lemma_write_then_read(pages, count, address, data);
    lemma_write_keeps_other_variables(pages, count, address, data);
    assert forall|other: u8| other != address implies read_outcome(after, other)
        == read_outcome(pages, other) by {}
    assert(contents(after) =~= contents(pages).insert(address, data));
}

/// A write that fails on an intact store may have removed the value that was
/// stored under its address; it changes nothing else of what the store
/// holds.
pub proof fn lemma_failed_write_keeps_others(
    pages: Seq<Seq<u8>>,
    count: nat,
    address: u8,
    data: Seq<u8>,
)
    requires
        intact(pages, count),
    ensures
        contents(write_outcome(pages, address, data).0).remove(address) == contents(
            pages,
        ).remove(address),
{
    let after = write_outcome(pages, address, data).0;
    lemma_write_keeps_other_variables(pages, count, address, data);
    assert forall|other: u8| other != address implies read_outcome(after, other)
        == read_outcome(pages, other) by {}
    assert(contents(after).remove(address) =~= contents(pages).remove(address));
}

/// Compaction. On an intact store of two pages or more a collection cycle
/// runs, leaves the store intact, and leaves every variable with its value.
/// On an intact store of one page it fails for want of a page to move to.
pub proof fn lemma_collect_keeps_variables(pages: Seq<Seq<u8>>, count: nat)
    requires
        intact(pages, count),
    ensures
        intact(collect_outcome(pages).0, count),
        count > 1 ==> collect_outcome(pages).1 is Ok,
        count == 1 ==> collect_outcome(pages).1 == Err::<usize, Error>(
            Error::GcInvariantViolated,
        ),
        forall|address: u8|
            read_outcome(collect_outcome(pages).0, address) == #[trigger] read_outcome(
                pages,
                address,
            ),
{
    lemma_readied_intact(pages, count);
    lemma_readied(pages, count);
    let ready = readied(pages);
    let source = working_page(pages)->Ok_0 as int;
    let target = next_page(source, count as int);
    let after = collect_outcome(pages).0;
    assert(ready[source][0] == ACTIVE);
    assert forall|address: u8| read_outcome(ready, address) == #[trigger] read_outcome(
        pages,
        address,
    ) by {
        if discover(pages) == Ok::<Option<usize>, Error>(None) && !reserved(address) {
            lemma_formatted(pages, count);
            assert(!entry_at(ready[0], 1));
        }
    }
    if count > 1 {
        assert(ready[target] == erased_page(ready[0].len()));
        assert(ready[source].len() == ready[0].len());
        lemma_collection_rotates(pages, count);
        lemma_compacted_page(ready[source]);
        assert forall|i: int| 0 <= i < count && i != target implies #[trigger] after[i]
            == erased_page(after[0].len()) by {
            if i != source {
                assert(after[i] == ready[i]);
            }
        }
    }
}

/// A collection cycle changes nothing of what an intact store holds.
pub proof fn lemma_collect_keeps_contents(pages: Seq<Seq<u8>>, count: nat)
    requires
        intact(pages, count),
    ensures
        contents(collect_outcome(pages).0) == contents(pages),
{
    let after = collect_outcome(pages).0;
    lemma_collect_keeps_variables(pages, count);
    assert forall|address: u8| read_outcome(after, address) == read_outcome(pages, address) by {}
    assert(contents(after) =~= contents(pages));
}

/// Wear rotation. A collection cycle that runs moves the data one page on in
/// the ring: the page that was active is erased, the page behind it is the
/// active page that discovery finds afterwards, and no other page changes.
pub proof fn lemma_collection_rotates(pages: Seq<Seq<u8>>, count: nat)
    requires
        well_formed(pages, count),
        collect_outcome(pages).1 is Ok,
    ensures
        working_page(pages) is Ok,
        count > 1,
        ({
            let source = working_page(pages)->Ok_0 as int;
            let target = collect_outcome(pages).1->Ok_0 as int;
            let after = collect_outcome(pages).0;
            &&& 0 <= source < count
            &&& 0 <= target < count
            &&& target == (source + 1) % (count as int)
            &&& target != source
            &&& well_formed(after, count)
            &&& after[0].len() == pages[0].len()
            &&& after[source] == erased_page(pages[0].len())
            &&& after[target] == compacted(readied(pages)[source], readied(pages)[target])
            &&& after[target][0] == ACTIVE
            &&& discover(after) == Ok::<Option<usize>, Error>(Some(target as usize))
            &&& forall|i: int|
                0 <= i < count && i != source && i != target ==> #[trigger] after[i] == readied(
                    pages,
                )[i]
        }),
{
    lemma_readied(pages, count);
    let ready = readied(pages);
    let source = working_page(pages)->Ok_0 as int;
    let target = next_page(source, count as int);
    let after = collect_outcome(pages).0;
    assert(ready[target][0] == ERASED);
    assert(target != source);
    if source + 1 == count {
        vstd::arithmetic::div_mod::lemma_mod_self_0(count as int);
    } else {
        vstd::arithmetic::div_mod::lemma_small_mod((source + 1) as nat, count);
    }
    assert(ready[source].len() == pages[0].len());
    assert(ready[target].len() == pages[0].len());
    assert(after[target][0] == ACTIVE);
    lemma_first_used(ready, 0);
    assert forall|i: int| 0 <= i < target implies (#[trigger] after[i])[0] == ERASED by {
        if i != source {
            assert(after[i] == ready[i]);
            assert(ready[i][0] == ERASED);
        }
    }
    lemma_first_used_is(after, 0, target);
    assert forall|i: int| 0 <= i < after.len() implies (#[trigger] after[i]).len()
        == after[0].len() by {
        assert(ready[i].len() == ready[0].len());
    }
}

/// Wear rotation, cycle after cycle. After `cycles` collection cycles the
/// active page is `cycles` places further on in the ring.
pub proof fn lemma_ring_position(pages: Seq<Seq<u8>>, count: nat, cycles: nat)
    requires
        well_formed(pages, count),
        working_page(pages) is Ok,
        cycles_run(pages, cycles),
    ensures
        well_formed(after_cycles(pages, cycles), count),
        after_cycles(pages, cycles)[0].len() == pages[0].len(),
        working_page(after_cycles(pages, cycles)) == Ok::<usize, Error>(
            ((working_page(pages)->Ok_0 + cycles) % (count as int)) as usize,
        ),
        cycles > 0 ==> discover(after_cycles(pages, cycles)) matches Ok(Some(_)),
    decreases cycles,
{
    let start = working_page(pages)->Ok_0 as int;
    lemma_readied(pages, count);
    if cycles == 0 {
        vstd::arithmetic::div_mod::lemma_small_mod(start as nat, count);
    } else {
        let earlier = (cycles - 1) as nat;
        lemma_ring_position(pages, count, earlier);
        lemma_collection_rotates(after_cycles(pages, earlier), count);
        vstd::arithmetic::div_mod::lemma_add_mod_noop(start + earlier, 1, count as int);
        vstd::arithmetic::div_mod::lemma_small_mod(1, count);
        vstd::arithmetic::div_mod::lemma_mod_bound(start + cycles, count as int);
    }
}

/// Wear rotation around the ring. Of any two collection cycles that are
/// fewer than the number of pages apart, the later one leaves another page
/// active than the earlier one: no page is used again before every other
/// page has had its turn.
pub proof fn lemma_ring_visits_every_page(
    pages: Seq<Seq<u8>>,
    count: nat,
    earlier: nat,
    later: nat,
)
    requires
        well_formed(pages, count),
        working_page(pages) is Ok,
        earlier < later < earlier + count,
        cycles_run(pages, later),
    ensures
        working_page(after_cycles(pages, earlier)) is Ok,
        working_page(after_cycles(pages, later)) is Ok,
        working_page(after_cycles(pages, earlier)) != working_page(after_cycles(pages, later)),
{
    let start = working_page(pages)->Ok_0 as int;
    lemma_cycles_run_before(pages, later, earlier);
    lemma_ring_position(pages, count, earlier);
    lemma_ring_position(pages, count, later);
    vstd::arithmetic::div_mod::lemma_mod_bound(start + earlier, count as int);
    vstd::arithmetic::div_mod::lemma_mod_bound(start + later, count as int);
    vstd::arithmetic::div_mod::lemma_mod_equivalence(start + later, start + earlier, count as int);
    vstd::arithmetic::div_mod::lemma_small_mod((later - earlier) as nat, count);
}

/// One erasure per cycle. On a store that is in use, a collection cycle that
/// runs erases one page, the one that was active, and a cycle that does not
/// run erases none.
pub proof fn lemma_cycle_erases_one_page(pages: Seq<Seq<u8>>, count: nat)
    requires
        well_formed(pages, count),
        discover(pages) matches Ok(Some(_)),
    ensures
        collect_erasures(pages) == if collect_outcome(pages).1 is Ok {
            seq![discover(pages)->Ok_0->Some_0]
        } else {
            Seq::<usize>::empty()
        },
{
    assert(Seq::<usize>::empty().push(discover(pages)->Ok_0->Some_0) =~= seq![
        discover(pages)->Ok_0->Some_0,
    ]);
}

/// A write to a store that is in use erases the active page, if it has to
/// make room and the collection cycle runs, and no other page.
pub proof fn lemma_write_erases_at_most_one_page(
    pages: Seq<Seq<u8>>,
    count: nat,
    address: u8,
    data: Seq<u8>,
)
    requires
        well_formed(pages, count),
        discover(pages) matches Ok(Some(_)),
    ensures
        write_erasures(pages, address, data) == Seq::<usize>::empty() || write_erasures(
            pages,
            address,
            data,
        ) == seq![discover(pages)->Ok_0->Some_0],
{
    if !reserved(address) {
        lemma_readied(pages, count);
        let active = discover(pages)->Ok_0->Some_0;
        let first = write_in_page(pages[active as int], address, data);
        if !first.1 {
            let scanned = pages.update(active as int, first.0);
            assert(pages[active as int].len() == pages[0].len());
            lemma_write_in_page_keeps_header(pages[active as int], address, data);
            assert forall|i: int| 0 <= i < scanned.len() implies (#[trigger] scanned[i])[0]
                == pages[i][0] by {}
            lemma_discover_by_headers(scanned, pages);
            assert forall|i: int| 0 <= i < scanned.len() implies (#[trigger] scanned[i]).len()
                == scanned[0].len() by {
                assert(pages[i].len() == pages[0].len());
            }
            lemma_cycle_erases_one_page(scanned, count);
            assert(Seq::<usize>::empty() + collect_erasures(scanned) =~= collect_erasures(
                scanned,
            ));
        }
    }
}

/// Even wear. Collection cycles in a row on a store that is in use erase the
/// pages in ring order, one per cycle, from the active page on.
pub proof fn lemma_cycles_erase_in_ring_order(pages: Seq<Seq<u8>>, count: nat, cycles: nat)
    requires
        well_formed(pages, count),
        discover(pages) matches Ok(Some(_)),
        cycles_run(pages, cycles),
    ensures
        cycles_erasures(pages, cycles) == Seq::new(
            cycles,
            |turn: int| ((discover(pages)->Ok_0->Some_0 + turn) % (count as int)) as usize,
        ),
    decreases cycles,
{
    let start = discover(pages)->Ok_0->Some_0;
    let ring = |turn: int| ((start + turn) % (count as int)) as usize;
    if cycles == 0 {
        assert(cycles_erasures(pages, cycles) =~= Seq::new(cycles, ring));
    } else {
        let earlier = (cycles - 1) as nat;
        lemma_cycles_erase_in_ring_order(pages, count, earlier);
        lemma_ring_position(pages, count, earlier);
        let before = after_cycles(pages, earlier);
        lemma_cycle_erases_one_page(before, count);
        vstd::arithmetic::div_mod::lemma_mod_bound(start + earlier, count as int);
        assert(cycles_erasures(pages, cycles) =~= Seq::new(cycles, ring));
    }
}

/// Even wear, page by page. Among the erasures of collection cycles in a row
/// on a store that is in use, a page does not come up again before every
/// other page has been erased.
pub proof fn lemma_cycles_spread_wear(
    pages: Seq<Seq<u8>>,
    count: nat,
    cycles: nat,
    earlier: int,
    later: int,
)
    requires
        well_formed(pages, count),
        discover(pages) matches Ok(Some(_)),
        cycles_run(pages, cycles),
        0 <= earlier < later < cycles,
        later < earlier + count,
    ensures
        cycles_erasures(pages, cycles).len() == cycles,
        cycles_erasures(pages, cycles)[earlier] != cycles_erasures(pages, cycles)[later],
{
    let start = discover(pages)->Ok_0->Some_0 as int;
    lemma_cycles_erase_in_ring_order(pages, count, cycles);
    vstd::arithmetic::div_mod::lemma_mod_bound(start + earlier, count as int);
    vstd::arithmetic::div_mod::lemma_mod_bound(start + later, count as int);
    vstd::arithmetic::div_mod::lemma_mod_equivalence(start + later, start + earlier, count as int);
    vstd::arithmetic::div_mod::lemma_small_mod((later - earlier) as nat, count);
}

/// Initialisation. Formatting gives the same store for any two stores of one
/// shape, whatever they held: page 0 is active and holds no entry, every
/// other page is erased. Formatting again changes nothing, and a formatted
/// store needs no formatting.
pub proof fn lemma_formatting_is_deterministic(
    pages: Seq<Seq<u8>>,
    other: Seq<Seq<u8>>,
    count: nat,
)
    requires
        well_formed(pages, count),
        well_formed(other, count),
        pages[0].len() == other[0].len(),
    ensures
        formatted(pages) == formatted(other),
        formatted(formatted(pages)) == formatted(pages),
        readied(formatted(pages)) == formatted(pages),
        discover(formatted(pages)) == Ok::<Option<usize>, Error>(Some(0)),
        formatted(pages)[0] == erased_page(pages[0].len()).update(0, ACTIVE),
        forall|i: int|
            1 <= i < count ==> #[trigger] formatted(pages)[i] == erased_page(pages[0].len()),
{
    lemma_formatted(pages, count);
    assert(formatted(pages) =~= formatted(other));
    assert(formatted(formatted(pages)) =~= formatted(pages));
}

/// A write keeps the shape of the store, whether it succeeds or not.
pub proof fn lemma_write_keeps_shape(
    pages: Seq<Seq<u8>>,
    count: nat,
    address: u8,
    data: Seq<u8>,
)
    requires
        well_formed(pages, count),
    ensures
        well_formed(write_outcome(pages, address, data).0, count),
        write_outcome(pages, address, data).0[0].len() == pages[0].len(),
{
    if !reserved(address) && working_page(pages) is Ok {
        lemma_readied(pages, count);
        let ready = readied(pages);
        let active = working_page(pages)->Ok_0 as int;
        let first = write_in_page(ready[active], address, data);
        let scanned = ready.update(active, first.0);
        assert(ready[active].len() == ready[0].len());
        lemma_write_in_page_keeps_header(ready[active], address, data);
        assert forall|i: int| 0 <= i < scanned.len() implies (#[trigger] scanned[i]).len()
            == pages[0].len() by {
            assert(ready[i].len() == ready[0].len());
        }
        assert(well_formed(scanned, count));
        if !first.1 {
            let cycle = collect_outcome(scanned);
            lemma_collect_keeps_shape(scanned, count);
            if cycle.1 is Ok {
                let moved = cycle.1->Ok_0 as int;
                lemma_collection_rotates(scanned, count);
                assert(cycle.0[moved].len() == cycle.0[0].len());
                lemma_write_in_page_keeps_header(cycle.0[moved], address, data);
                let last = cycle.0.update(moved, write_in_page(cycle.0[moved], address, data).0);
                assert forall|i: int| 0 <= i < last.len() implies (#[trigger] last[i]).len()
                    == pages[0].len() by {
                    assert(cycle.0[i].len() == cycle.0[0].len());
                }
            }
        }
    }
}

/// A collection cycle keeps the shape of the store, whether it runs or not.
pub proof fn lemma_collect_keeps_shape(pages: Seq<Seq<u8>>, count: nat)
    requires
        well_formed(pages, count),
    ensures
        well_formed(collect_outcome(pages).0, count),
        collect_outcome(pages).0[0].len() == pages[0].len(),
{
    if working_page(pages) is Ok {
        lemma_readied(pages, count);
        if collect_outcome(pages).1 is Ok {
            lemma_collection_rotates(pages, count);
        }
    }
}

} // verus!
