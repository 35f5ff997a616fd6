//! A store in ordinary memory: `N` pages of `P` units each.

use crate::model::{erased_page, intact};
use crate::model_lemmas::lemma_fresh_store_is_intact;
use crate::page::ERASED;
use crate::store::EEPROM;
use vstd::prelude::*;

verus! {

/// Hands out two different elements of a slice for writing.
pub fn get_two_mut<T>(slice: &mut [T], a: usize, b: usize) -> (pair: (&mut T, &mut T))
    requires
        a < old(slice)@.len(),
        b < old(slice)@.len(),
        a != b,
    ensures
        *pair.0 == old(slice)@[a as int],
        *pair.1 == old(slice)@[b as int],
        final(slice)@ == old(slice)@.update(a as int, *final(pair.0)).update(
            b as int,
            *final(pair.1),
        ),
{
    if a < b {
        let (low, high) = slice.split_at_mut(b);
        (&mut low[a], &mut high[0])
    } else {
        let (low, high) = slice.split_at_mut(a);
        (&mut high[0], &mut low[b])
    }
}

/// A page of `P` units with nothing programmed.
fn blank_page<const P: usize>() -> (page: [u8; P])
    ensures
        page@ == erased_page(P as nat),
{
    let page: [u8; P] = [ERASED; P];
    proof {
        vstd::array::axiom_spec_array_fill_for_copy_type::<u8, P>(ERASED);
        assert(page@ =~= erased_page(P as nat));
    }
    page
}

/// A store of `N` pages of `P` units, kept in an array.
pub struct ArrayEEPROM<const N: usize, const P: usize> {
    pages: [[u8; P]; N],
    erased: Ghost<Seq<usize>>,
}

impl<const N: usize, const P: usize> ArrayEEPROM<N, P> {
    /// A store with every page erased.
    pub fn new() -> (store: Self)
        ensures
            store.pages().len() == N,
            forall|i: int| 0 <= i < N ==> #[trigger] store.pages()[i] == erased_page(P as nat),
            store.erasures() == Seq::<usize>::empty(),
            0 < N && 0 < P <= u32::MAX ==> intact(store.pages(), N as nat),
    {
        let blank: [u8; P] = blank_page();
        let store = ArrayEEPROM { pages: [blank; N], erased: Ghost(Seq::empty()) };
        proof {
            vstd::array::axiom_spec_array_fill_for_copy_type::<[u8; P], N>(blank);
            assert forall|i: int| 0 <= i < N implies #[trigger] store.pages()[i] == erased_page(
                P as nat,
            ) by {
                assert(store.pages[i] == blank);
            }
            if 0 < N && 0 < P <= u32::MAX {
                lemma_fresh_store_is_intact(store.pages(), N as nat);
            }
        }
        store
    }
}

impl<const N: usize, const P: usize> EEPROM<N> for ArrayEEPROM<N, P> {
    closed spec fn pages(&self) -> Seq<Seq<u8>> {
        Seq::new(N as nat, |i: int| self.pages[i]@)
    }

    closed spec fn erasures(&self) -> Seq<usize> {
        self.erased@
    }

    fn get_pages(&self) -> (views: [&[u8]; N]) {
        let first: &[u8] = &self.pages[0];
        let mut views: [&[u8]; N] = [first; N];
        let mut index: usize = 0;
        while index < N
            invariant
                index <= N,
                forall|i: int| 0 <= i < index ==> (#[trigger] views@[i])@ == self.pages()[i],
            decreases N - index,
        {
            views[index] = &self.pages[index];
            index = index + 1;
        }
        views
    }

    fn get_page_mut(&mut self, index: usize) -> (page: &mut [u8]) {
        &mut self.pages[index]
    }

    fn get_two_pages_mut(&mut self, first: usize, second: usize) -> (views: (
        &mut [u8],
        &mut [u8],
    )) {
        let (a, b) = get_two_mut(&mut self.pages, first, second);
        (a, b)
    }

    fn reset_page(&mut self, index: usize) {
        self.pages[index] = blank_page();
        self.erased = Ghost(self.erased@.push(index));
        assert(self.pages() =~= old(self).pages().update(
            index as int,
            erased_page(old(self).pages()[index as int].len()),
        ));
    }
}

} // verus!
