//! The store: what the engine asks of the memory behind it, and the three
//! operations that it offers on top: reading a variable, writing one, and the
//! collection cycle that moves the live data to the next page.

use crate::codec::{FREE, HEADER_UNITS, TOMBSTONE, reserved};
use crate::error::Error;
use crate::laws::{
    lemma_collect_keeps_contents, lemma_collect_keeps_variables, lemma_collection_rotates,
    lemma_failed_write_keeps_others, lemma_oversized_value_is_refused, lemma_write_inserts,
    lemma_write_keeps_other_variables, lemma_write_then_read,
};
use crate::log::{compact, find_variable, live_units, overlay, write_entry};
use crate::log_lemmas::{lemma_live_units_skip_header, lemma_write_in_page_keeps_header};
use crate::model::{
    collect_erasures, collect_outcome, contents, erased_page, every_page, formatted, intact,
    read_outcome, readied, readying_erasures, working_page, write_erasures, write_outcome,
};
use crate::model_lemmas::{lemma_fresh_store_is_intact, lemma_readied_intact};
use crate::page::{
    ACTIVE, GC_RUNNING, PageHeader, discover, find_active_page, lemma_first_used, well_formed,
};
use vstd::prelude::*;

verus! {

/// A store of `N` pages of one length, and the variables kept in it.
///
/// An implementor provides the memory: `pages` says what it holds and
/// `erasures` how it was worn, and the four methods without a body give
/// access to it. What is proved of the engine holds of a store whose four
/// methods do what their contracts say. The methods with a body are the
/// engine; they work on any store that is `well_formed`.
pub trait EEPROM<const N: usize> {
    /// The units that the store holds, page by page.
    spec fn pages(&self) -> Seq<Seq<u8>>;

    /// The wear of the store: the index of every page that was erased since
    /// the store was made, in the order of the erasures.
    spec fn erasures(&self) -> Seq<usize>;

    /// Gives read access to every page.
    fn get_pages(&self) -> (views: [&[u8]; N])
        requires
            well_formed(self.pages(), N as nat),
        ensures
            forall|i: int| 0 <= i < N ==> (#[trigger] views@[i])@ == self.pages()[i],
    ;

    /// Gives write access to the page at `index`. What the caller leaves in
    /// the view is what the page holds afterwards; no other page changes.
    fn get_page_mut(&mut self, index: usize) -> (page: &mut [u8])
        requires
            well_formed(old(self).pages(), N as nat),
            index < N,
        ensures
            page@ == old(self).pages()[index as int],
            final(self).pages() == old(self).pages().update(index as int, final(page)@),
            final(self).erasures() == old(self).erasures(),
    ;

    /// Gives write access to two different pages at once.
    fn get_two_pages_mut(&mut self, first: usize, second: usize) -> (views: (
        &mut [u8],
        &mut [u8],
    ))
        requires
            well_formed(old(self).pages(), N as nat),
            first < N,
            second < N,
            first != second,
        ensures
            views.0@ == old(self).pages()[first as int],
            views.1@ == old(self).pages()[second as int],
            final(self).pages() == old(self).pages().update(first as int, final(views.0)@).update(
                second as int,
                final(views.1)@,
            ),
            final(self).erasures() == old(self).erasures(),
    ;

    /// Erases the page at `index`: every unit of it, the header too, becomes
    /// `ERASED`. No other page changes. The erasure adds to the wear.
    fn reset_page(&mut self, index: usize)
        requires
            well_formed(old(self).pages(), N as nat),
            index < N,
        ensures
            final(self).pages() == old(self).pages().update(
                index as int,
                erased_page(old(self).pages()[index as int].len()),
            ),
            final(self).erasures() == old(self).erasures().push(index),
    ;

    /// Formats the store for first use: erases every page and marks page 0
    /// active. What the pages held before does not matter.
    fn initialize(&mut self)
        requires
            well_formed(old(self).pages(), N as nat),
        ensures
            final(self).pages() == formatted(old(self).pages()),
            final(self).erasures() == old(self).erasures() + every_page(N as nat),
            intact(final(self).pages(), N as nat),
    {
        let ghost before = self.pages();
        proof {
            lemma_fresh_store_is_intact(before, N as nat);
        }
        let mut index: usize = 0;
        while index < N
            invariant
                index <= N,
                well_formed(before, N as nat),
                well_formed(self.pages(), N as nat),
                self.pages()[0].len() == before[0].len(),
                forall|i: int|
                    0 <= i < index ==> #[trigger] self.pages()[i] == erased_page(before[i].len()),
                self.erasures() == old(self).erasures() + every_page(index as nat),
            decreases N - index,
        {
            self.reset_page(index);
            assert(every_page(index as nat).push(index) =~= every_page((index + 1) as nat));
            assert(self.erasures() =~= old(self).erasures() + every_page((index + 1) as nat));
            index = index + 1;
        }
        let page = self.get_page_mut(0);
        page[0] = PageHeader::Active.unit();
        assert(self.pages() =~= formatted(before));
    }

    /// Finds the page to work on: the active page, or page 0 after formatting
    /// the store where no page is in use yet. Leaves the store alone where
    /// the first page in use is not marked active.
    fn active_page(&mut self) -> (found: Result<usize, Error>)
        requires
            well_formed(old(self).pages(), N as nat),
        ensures
            found == working_page(old(self).pages()),
            final(self).pages() == if found is Ok {
                readied(old(self).pages())
            } else {
                old(self).pages()
            },
            final(self).erasures() == if found is Ok {
                old(self).erasures() + readying_erasures(old(self).pages())
            } else {
                old(self).erasures()
            },
            well_formed(final(self).pages(), N as nat),
            intact(old(self).pages(), N as nat) ==> intact(final(self).pages(), N as nat),
            found matches Ok(index) ==> index < N && final(self).pages()[index as int][0]
                == ACTIVE,
    {
        proof {
            if intact(self.pages(), N as nat) {
                lemma_readied_intact(self.pages(), N as nat);
            }
        }
        let views = self.get_pages();
        proof {
            assert(views@.map_values(|page: &[u8]| page@) =~= self.pages());
            lemma_first_used(self.pages(), 0);
        }
        match find_active_page(&views) {
            Err(error) => Err(error),
            Ok(Some(index)) => {
                assert(self.erasures() =~= self.erasures() + Seq::<usize>::empty());
                Ok(index)
            },
            Ok(None) => {
                self.initialize();
                Ok(0)
            },
        }
    }

    /// The first half of a collection cycle: marks the page at `source` as
    /// being collected and copies its live entries to the page at `target`,
    /// packed from offset 1 on. The header of `target` and what it holds
    /// behind the copied entries stay as they are, and so does the log of
    /// `source`.
    ///
    /// With `source` marked the store has no active page that discovery
    /// accepts: `run_garbage_collection` goes on to erase `source` and to
    /// mark `target` active.
    fn move_live_entries(&mut self, source: usize, target: usize)
        requires
            well_formed(old(self).pages(), N as nat),
            source < N,
            target < N,
            source != target,
        ensures
            final(self).pages() == old(self).pages().update(
                source as int,
                old(self).pages()[source as int].update(0, GC_RUNNING),
            ).update(
                target as int,
                overlay(
                    old(self).pages()[target as int],
                    1,
                    live_units(old(self).pages()[source as int], 1),
                ),
            ),
            final(self).erasures() == old(self).erasures(),
            well_formed(final(self).pages(), N as nat),
    {
        let ghost before = self.pages();
        proof {
            assert(before[source as int].len() == before[0].len());
            assert(before[target as int].len() == before[0].len());
        }
        let (from, to) = self.get_two_pages_mut(source, target);
        from[0] = PageHeader::GcRunning.unit();
        compact(from, to);
        proof {
            lemma_live_units_skip_header(before[source as int], from@);
        }
    }

    /// Runs a collection cycle: moves the live entries of the active page to
    /// the next page of the ring, erases the page that was active, and marks
    /// the next one active. Returns the index of the new active page. While
    /// the entries are copied the page that was active is marked
    /// `GC_RUNNING`.
    ///
    /// Fails with `CorruptHeader` where no active page can be told, and with
    /// `GcInvariantViolated` where the next page is not erased, as in a store
    /// of one page; the store then keeps its data.
    fn run_garbage_collection(&mut self) -> (moved: Result<usize, Error>)
        requires
            well_formed(old(self).pages(), N as nat),
        ensures
            final(self).pages() == collect_outcome(old(self).pages()).0,
            moved == collect_outcome(old(self).pages()).1,
            final(self).erasures() == old(self).erasures() + collect_erasures(old(self).pages()),
            well_formed(final(self).pages(), N as nat),
            moved matches Ok(target) ==> {
                let source = working_page(old(self).pages())->Ok_0 as int;
                &&& target < N
                &&& target == (source + 1) % (N as int)
                &&& final(self).pages()[source] == erased_page(old(self).pages()[0].len())
                &&& discover(final(self).pages()) == Ok::<Option<usize>, Error>(Some(target))
            },
            intact(old(self).pages(), N as nat) ==> {
                &&& intact(final(self).pages(), N as nat)
                &&& contents(final(self).pages()) == contents(old(self).pages())
            },
    {
        proof {
            if collect_outcome(self.pages()).1 is Ok {
                lemma_collection_rotates(self.pages(), N as nat);
            }
            if intact(self.pages(), N as nat) {
                lemma_collect_keeps_variables(self.pages(), N as nat);
                lemma_collect_keeps_contents(self.pages(), N as nat);
            }
        }
        let source: usize = match self.active_page() {
            Ok(index) => index,
            Err(error) => {
                assert(self.erasures() =~= self.erasures() + Seq::<usize>::empty());
                return Err(error);
            },
        };
        let target: usize = if source + 1 == N {
            0
        } else {
            source + 1
        };
        let views = self.get_pages();
        if views[target][0] != PageHeader::Erased.unit() {
            return Err(Error::GcInvariantViolated);
        }
        self.move_live_entries(source, target);
        self.reset_page(source);
        let page = self.get_page_mut(target);
        page[0] = PageHeader::Active.unit();
        assert(self.pages() =~= collect_outcome(old(self).pages()).0);
        Ok(target)
    }

    /// Stores `data` under `address`, in place of what was stored there.
    ///
    /// The entry that held the old value becomes a tombstone and the new
    /// value goes to the end of the log. Where the active page has no room
    /// for it, one collection cycle runs and the write is tried once more on
    /// the new active page.
    ///
    /// Fails with `ReservedAddress` for the two reserved addresses, with
    /// `CorruptHeader` and `GcInvariantViolated` as the collection cycle does,
    /// and with `OutOfSpace` where the value has no room after the cycle
    /// either. A write that fails after the scan has begun may have turned
    /// the old value into a tombstone: the variable is then gone. Every other
    /// variable keeps its value.
    fn write_variable(&mut self, address: u8, data: &[u8]) -> (stored: Result<(), Error>)
        requires
            well_formed(old(self).pages(), N as nat),
        ensures
            final(self).pages() == write_outcome(old(self).pages(), address, data@).0,
            stored == write_outcome(old(self).pages(), address, data@).1,
            final(self).erasures() == old(self).erasures() + write_erasures(
                old(self).pages(),
                address,
                data@,
            ),
            well_formed(final(self).pages(), N as nat),
            reserved(address) <==> stored == Err::<(), Error>(Error::ReservedAddress),
            1 + HEADER_UNITS + data@.len() > old(self).pages()[0].len() ==> stored is Err,
            stored is Ok ==> read_outcome(final(self).pages(), address) == Ok::<
                Option<Seq<u8>>,
                Error,
            >(Some(data@)),
            intact(old(self).pages(), N as nat) ==> {
                &&& intact(final(self).pages(), N as nat)
                &&& contents(final(self).pages()).remove(address) == contents(
                    old(self).pages(),
                ).remove(address)
                &&& stored is Ok ==> contents(final(self).pages()) == contents(
                    old(self).pages(),
                ).insert(address, data@)
            },
    {
        proof {
            if intact(self.pages(), N as nat) {
                lemma_write_keeps_other_variables(self.pages(), N as nat, address, data@);
                lemma_failed_write_keeps_others(self.pages(), N as nat, address, data@);
                if write_outcome(self.pages(), address, data@).1 is Ok {
                    lemma_write_inserts(self.pages(), N as nat, address, data@);
                }
            }
            if 1 + HEADER_UNITS + data@.len() > self.pages()[0].len() {
                lemma_oversized_value_is_refused(self.pages(), N as nat, address, data@);
            }
            if write_outcome(self.pages(), address, data@).1 is Ok {
                lemma_write_then_read(self.pages(), N as nat, address, data@);
            }
        }
        if address == TOMBSTONE || address == FREE {
            assert(self.erasures() =~= self.erasures() + Seq::<usize>::empty());
            return Err(Error::ReservedAddress);
        }
        let active: usize = match self.active_page() {
            Ok(index) => index,
            Err(error) => {
                assert(self.erasures() =~= self.erasures() + Seq::<usize>::empty());
                return Err(error);
            },
        };
        proof {
            lemma_write_in_page_keeps_header(self.pages()[active as int], address, data@);
        }
        if write_entry(self.get_page_mut(active), address, data) {
            return Ok(());
        }
        let cycle = self.run_garbage_collection();
        assert(self.erasures() =~= old(self).erasures() + write_erasures(
            old(self).pages(),
            address,
            data@,
        ));
        let moved: usize = match cycle {
            Ok(index) => index,
            Err(error) => {
                return Err(error);
            },
        };
        proof {
            lemma_write_in_page_keeps_header(self.pages()[moved as int], address, data@);
        }
        if write_entry(self.get_page_mut(moved), address, data) {
            Ok(())
        } else {
            Err(Error::OutOfSpace)
        }
    }

    /// Looks up the value stored under `address`. `Ok(None)` where nothing is
    /// stored under it, or nothing was ever stored at all.
    ///
    /// Fails with `ReservedAddress` for the two reserved addresses and with
    /// `CorruptHeader` where no active page can be told.
    fn read_variable(&self, address: u8) -> (found: Result<Option<&[u8]>, Error>)
        requires
            well_formed(self.pages(), N as nat),
        ensures
            match found {
                Ok(Some(data)) => read_outcome(self.pages(), address) == Ok::<
                    Option<Seq<u8>>,
                    Error,
                >(Some(data@)),
                Ok(None) => read_outcome(self.pages(), address) == Ok::<Option<Seq<u8>>, Error>(
                    None,
                ),
                Err(error) => read_outcome(self.pages(), address) == Err::<
                    Option<Seq<u8>>,
                    Error,
                >(error),
            },
            reserved(address) <==> found matches Err(Error::ReservedAddress),
    {
        if address == TOMBSTONE || address == FREE {
            return Err(Error::ReservedAddress);
        }
        let views = self.get_pages();
        proof {
            assert(views@.map_values(|page: &[u8]| page@) =~= self.pages());
        }
        match find_active_page(&views) {
            Err(error) => Err(error),
            Ok(None) => Ok(None),
            Ok(Some(index)) => {
                proof {
                    lemma_first_used(self.pages(), 0);
                }
                Ok(find_variable(views[index], address))
            },
        }
    }
}

} // verus!
