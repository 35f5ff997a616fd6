//! The store as a value: the units of its pages, and what each operation of
//! the engine makes of them.

use crate::codec::reserved;
use crate::error::Error;
use crate::log::{live_units, lookup, overlay, settled, unique, write_in_page};
use crate::page::{ACTIVE, ERASED, discover, well_formed};
use vstd::prelude::*;

verus! {

/// A page of `len` units as erasing leaves it.
pub open spec fn erased_page(len: nat) -> Seq<u8> {
    Seq::new(len, |i: int| ERASED)
}

/// The store as first use leaves it: every page erased, and page 0 marked
/// active.
pub open spec fn formatted(pages: Seq<Seq<u8>>) -> Seq<Seq<u8>> {
    Seq::new(
        pages.len(),
        |i: int|
            if i == 0 {
                erased_page(pages[i].len()).update(0, ACTIVE)
            } else {
                erased_page(pages[i].len())
            },
    )
}

/// The store made ready for work: formatted where no page is in use, as it is
/// otherwise.
pub open spec fn readied(pages: Seq<Seq<u8>>) -> Seq<Seq<u8>> {
    if discover(pages) == Ok::<Option<usize>, Error>(None) {
        formatted(pages)
    } else {
        pages
    }
}

/// The page that the engine works on once the store is ready: the active page,
/// or page 0 where the store had to be formatted.
pub open spec fn working_page(pages: Seq<Seq<u8>>) -> Result<usize, Error> {
    match discover(pages) {
        Ok(Some(index)) => Ok(index),
        Ok(None) => Ok(0),
        Err(error) => Err(error),
    }
}

/// The page behind `index` in the ring of `count` pages.
pub open spec fn next_page(index: int, count: int) -> int {
    if index + 1 == count {
        0
    } else {
        index + 1
    }
}

/// What reading `address` gives on a store that holds `pages`.
pub open spec fn read_outcome(pages: Seq<Seq<u8>>, address: u8) -> Result<
    Option<Seq<u8>>,
    Error,
> {
    if reserved(address) {
        Err(Error::ReservedAddress)
    } else {
        match discover(pages) {
            Err(error) => Err(error),
            Ok(None) => Ok(None),
            Ok(Some(index)) => Ok(lookup(pages[index as int], address, 1)),
        }
    }
}

/// The page that a collection cycle makes of the erased page `target` when it
/// moves the live data of `source` there.
pub open spec fn compacted(source: Seq<u8>, target: Seq<u8>) -> Seq<u8> {
    overlay(target, 1, live_units(source, 1)).update(0, ACTIVE)
}

/// What a collection cycle does to a store that holds `pages`: the pages that
/// it leaves, and the index of the new active page or the reason for which
/// the cycle could not run.
pub open spec fn collect_outcome(pages: Seq<Seq<u8>>) -> (Seq<Seq<u8>>, Result<usize, Error>) {
    match working_page(pages) {
        Err(error) => (pages, Err(error)),
        Ok(source) => {
            let ready = readied(pages);
            let target = next_page(source as int, pages.len() as int);
            if ready[target][0] != ERASED {
                (ready, Err(Error::GcInvariantViolated))
            } else {
                (
                    ready.update(source as int, erased_page(ready[source as int].len())).update(
                        target,
                        compacted(ready[source as int], ready[target]),
                    ),
                    Ok(target as usize),
                )
            }
        },
    }
}

/// What writing `data` to `address` does to a store that holds `pages`: the
/// pages that it leaves, and whether the value was stored.
pub open spec fn write_outcome(pages: Seq<Seq<u8>>, address: u8, data: Seq<u8>) -> (
    Seq<Seq<u8>>,
    Result<(), Error>,
) {
    if reserved(address) {
        (pages, Err(Error::ReservedAddress))
    } else {
        match working_page(pages) {
            Err(error) => (pages, Err(error)),
            Ok(active) => {
                let ready = readied(pages);
                let first = write_in_page(ready[active as int], address, data);
                let scanned = ready.update(active as int, first.0);
                if first.1 {
                    (scanned, Ok(()))
                } else {
                    let cycle = collect_outcome(scanned);
                    match cycle.1 {
                        Err(error) => (cycle.0, Err(error)),
                        Ok(moved) => {
                            let second = write_in_page(cycle.0[moved as int], address, data);
                            (
                                cycle.0.update(moved as int, second.0),
                                if second.1 {
                                    Ok(())
                                } else {
                                    Err(Error::OutOfSpace)
                                },
                            )
                        },
                    }
                }
            },
        }
    }
}

/// A store as the engine leaves it: either no page is in use yet, or there is
/// an active page that holds nothing behind its log and no two live entries
/// for one address, and every other page is erased.
pub open spec fn intact(pages: Seq<Seq<u8>>, count: nat) -> bool {
    &&& well_formed(pages, count)
    &&& match discover(pages) {
        Err(_) => false,
        Ok(None) => true,
        Ok(Some(active)) => {
            &&& settled(pages[active as int])
            &&& unique(pages[active as int])
            &&& forall|i: int|
                0 <= i < count && i != active ==> #[trigger] pages[i] == erased_page(
                    pages[0].len(),
                )
        },
    }
}

/// What a store holds: the value of every address that has one.
pub open spec fn contents(pages: Seq<Seq<u8>>) -> Map<u8, Seq<u8>> {
    Map::new(
        |address: u8| read_outcome(pages, address) matches Ok(Some(_)),
        |address: u8| read_outcome(pages, address)->Ok_0->Some_0,
    )
}

/// Every page of a store of `count` pages, in index order.
pub open spec fn every_page(count: nat) -> Seq<usize> {
    Seq::new(count, |i: int| i as usize)
}

/// The pages that are erased to make a store ready for work, in the order in
/// which they are erased: every page where the store has to be formatted,
/// none otherwise.
pub open spec fn readying_erasures(pages: Seq<Seq<u8>>) -> Seq<usize> {
    if discover(pages) == Ok::<Option<usize>, Error>(None) {
        every_page(pages.len())
    } else {
        Seq::empty()
    }
}

/// The pages that a collection cycle erases, in the order in which it erases
/// them: those erased to make the store ready, and then, if the cycle runs,
/// the page that was active.
pub open spec fn collect_erasures(pages: Seq<Seq<u8>>) -> Seq<usize> {
    match working_page(pages) {
        Err(_) => Seq::empty(),
        Ok(source) => if collect_outcome(pages).1 is Ok {
            readying_erasures(pages).push(source)
        } else {
            readying_erasures(pages)
        },
    }
}

/// The pages that a write erases, in the order in which it erases them:
/// those erased to make the store ready, and then, if the value finds no
/// room in the active page, those that the collection cycle erases.
pub open spec fn write_erasures(pages: Seq<Seq<u8>>, address: u8, data: Seq<u8>) -> Seq<usize> {
    if reserved(address) {
        Seq::empty()
    } else {
        match working_page(pages) {
            Err(_) => Seq::empty(),
            Ok(active) => {
                let ready = readied(pages);
                let first = write_in_page(ready[active as int], address, data);
                if first.1 {
                    readying_erasures(pages)
                } else {
                    readying_erasures(pages) + collect_erasures(
                        ready.update(active as int, first.0),
                    )
                }
            },
        }
    }
}

/// The store after `cycles` collection cycles in a row.
pub open spec fn after_cycles(pages: Seq<Seq<u8>>, cycles: nat) -> Seq<Seq<u8>>
    decreases cycles,
{
    if cycles == 0 {
        pages
    } else {
        collect_outcome(after_cycles(pages, (cycles - 1) as nat)).0
    }
}

/// Each of the first `cycles` collection cycles on a store runs.
pub open spec fn cycles_run(pages: Seq<Seq<u8>>, cycles: nat) -> bool
    decreases cycles,
{
    cycles == 0 || {
        &&& cycles_run(pages, (cycles - 1) as nat)
        &&& collect_outcome(after_cycles(pages, (cycles - 1) as nat)).1 is Ok
    }
}

/// The pages that `cycles` collection cycles in a row erase, in the order in
/// which they are erased.
pub open spec fn cycles_erasures(pages: Seq<Seq<u8>>, cycles: nat) -> Seq<usize>
    decreases cycles,
{
    if cycles == 0 {
        Seq::empty()
    } else {
        cycles_erasures(pages, (cycles - 1) as nat) + collect_erasures(
            after_cycles(pages, (cycles - 1) as nat),
        )
    }
}

} // verus!
