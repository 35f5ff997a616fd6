//! The page state machine: what the first unit of a page says about the page,
//! and which page of a store is the active one.

use crate::error::Error;
use vstd::prelude::*;

verus! {

/// Header unit of a page that was erased and not used since.
pub const ERASED: u8 = 0xFF;

/// Header unit of the page that holds the live data.
pub const ACTIVE: u8 = 1;

/// Header unit of a page whose live data is being moved away.
pub const GC_RUNNING: u8 = 0;

/// State of a page, as its header unit tells it.
#[derive(Clone, Copy, Debug, PartialEq, Eq)]
pub enum PageHeader {
    /// Empty, ready to receive data.
    Erased,
    /// Holds the current data set.
    Active,
    /// A collection cycle started on this page and did not finish.
    GcRunning,
}

impl PageHeader {
    /// The state that a header unit stands for, if it stands for one.
    pub open spec fn of_unit(unit: u8) -> Option<PageHeader> {
        if unit == ERASED {
            Some(PageHeader::Erased)
        } else if unit == ACTIVE {
            Some(PageHeader::Active)
        } else if unit == GC_RUNNING {
            Some(PageHeader::GcRunning)
        } else {
            None
        }
    }

    /// The header unit that stands for this state.
    pub open spec fn spec_unit(self) -> u8 {
        match self {
            PageHeader::Erased => ERASED,
            PageHeader::Active => ACTIVE,
            PageHeader::GcRunning => GC_RUNNING,
        }
    }

    /// Reads a header unit; `None` for a unit that stands for no state.
    pub fn from_unit(unit: u8) -> (state: Option<PageHeader>)
        ensures
            state == PageHeader::of_unit(unit),
    {
        if unit == ERASED {
            Some(PageHeader::Erased)
        } else if unit == ACTIVE {
            Some(PageHeader::Active)
        } else if unit == GC_RUNNING {
            Some(PageHeader::GcRunning)
        } else {
            None
        }
    }

    /// The header unit to program for this state.
    #[verifier::when_used_as_spec(spec_unit)]
    pub fn unit(self) -> (unit: u8)
        ensures
            unit == self.spec_unit(),
            PageHeader::of_unit(unit) == Some(self),
    {
        match self {
            PageHeader::Erased => ERASED,
            PageHeader::Active => ACTIVE,
            PageHeader::GcRunning => GC_RUNNING,
        }
    }
}

/// A store of `count` pages has a shape that the engine can work on: at least
/// one page, every page of the same length, with room for the header unit,
/// and no page longer than the length field of an entry can express.
pub open spec fn well_formed(pages: Seq<Seq<u8>>, count: nat) -> bool {
    &&& pages.len() == count
    &&& 0 < count <= usize::MAX
    &&& 0 < pages[0].len() <= u32::MAX
    &&& forall|i: int| 0 <= i < pages.len() ==> (#[trigger] pages[i]).len() == pages[0].len()
}

/// Index of the first page at or after `from` whose header is not `ERASED`;
/// the number of pages if there is none.
pub open spec fn first_used(pages: Seq<Seq<u8>>, from: int) -> int
    decreases pages.len() - from,
{
    if from < 0 || from >= pages.len() {
        pages.len() as int
    } else if pages[from][0] != ERASED {
        from
    } else {
        first_used(pages, from + 1)
    }
}

/// The active page of a store: the first page in index order that is not
/// erased, which has to be marked `ACTIVE`. `Ok(None)` where every page is
/// erased; `CorruptHeader` where the first page in use is not marked active.
pub open spec fn discover(pages: Seq<Seq<u8>>) -> Result<Option<usize>, Error> {
    let first = first_used(pages, 0);
    if first >= pages.len() {
        Ok(None)
    } else if pages[first][0] == ACTIVE {
        Ok(Some(first as usize))
    } else {
        Err(Error::CorruptHeader)
    }
}

/// Finds the active page among the pages of a store.
pub fn find_active_page<const N: usize>(pages: &[&[u8]; N]) -> (found: Result<
    Option<usize>,
    Error,
>)
    requires
        forall|i: int| 0 <= i < N ==> (#[trigger] pages@[i])@.len() > 0,
    ensures
        found == discover(pages@.map_values(|page: &[u8]| page@)),
{
    let ghost units = pages@.map_values(|page: &[u8]| page@);
    let mut index: usize = 0;
    while index < N
        invariant
            index <= N,
            pages@.len() == N,
            units == pages@.map_values(|page: &[u8]| page@),
            forall|i: int| 0 <= i < N ==> (#[trigger] pages@[i])@.len() > 0,
            first_used(units, 0) == first_used(units, index as int),
        decreases N - index,
    {
        let page: &[u8] = pages[index];
        assert(units[index as int] == page@);
        match PageHeader::from_unit(page[0]) {
            Some(PageHeader::Erased) => {},
            Some(PageHeader::Active) => {
                return Ok(Some(index));
            },
            _ => {
                return Err(Error::CorruptHeader);
            },
        }
        index = index + 1;
    }
    Ok(None)
}

/// `first_used` finds a page in use that only erased pages precede, or no
/// page at all.
pub proof fn lemma_first_used(pages: Seq<Seq<u8>>, from: int)
    requires
        0 <= from <= pages.len(),
    ensures
        from <= first_used(pages, from) <= pages.len(),
        forall|i: int| from <= i < first_used(pages, from) ==> (#[trigger] pages[i])[0] == ERASED,
        first_used(pages, from) < pages.len() ==> pages[first_used(pages, from)][0] != ERASED,
    decreases pages.len() - from,
{
    if from < pages.len() && pages[from][0] == ERASED {
        lemma_first_used(pages, from + 1);
    }
}

/// A page in use that only erased pages precede is the one `first_used` finds.
pub proof fn lemma_first_used_is(pages: Seq<Seq<u8>>, from: int, at: int)
    requires
        0 <= from <= at < pages.len(),
        forall|i: int| from <= i < at ==> (#[trigger] pages[i])[0] == ERASED,
        pages[at][0] != ERASED,
    ensures
        first_used(pages, from) == at,
    decreases at - from,
{
    if from < at {
        assert(pages[from][0] == ERASED);
        lemma_first_used_is(pages, from + 1, at);
    }
}

proof fn lemma_first_used_by_headers(pages: Seq<Seq<u8>>, other: Seq<Seq<u8>>, from: int)
    requires
        pages.len() == other.len(),
        forall|i: int| 0 <= i < pages.len() ==> (#[trigger] pages[i])[0] == other[i][0],
    ensures
        first_used(pages, from) == first_used(other, from),
    decreases pages.len() - from,
{
    if 0 <= from < pages.len() {
        assert(pages[from][0] == other[from][0]);
        if pages[from][0] == ERASED {
            lemma_first_used_by_headers(pages, other, from + 1);
        }
    }
}

/// Which page is active depends on the header units alone.
pub proof fn lemma_discover_by_headers(pages: Seq<Seq<u8>>, other: Seq<Seq<u8>>)
    requires
        pages.len() == other.len(),
        forall|i: int| 0 <= i < pages.len() ==> (#[trigger] pages[i])[0] == other[i][0],
    ensures
        discover(pages) == discover(other),
{
    lemma_first_used_by_headers(pages, other, 0);
    lemma_first_used(pages, 0);
    let first = first_used(pages, 0);
    if first < pages.len() {
        assert(pages[first][0] == other[first][0]);
    }
}

} // verus!
