//! A wear-levelling key/value store for memory that is erased a page at a
//! time and programmed by appending.
//!
//! The store keeps its variables as a log of entries in one *active* page.
//! Writing a variable marks the entry it replaces as dead and appends the new
//! value; when the active page is full, the live entries move to the next
//! page of the ring and the old page is erased.
//!
//! `codec`, `page` and `log` hold the layout: the header of an entry, the
//! header of a page, and the log of entries in a page. `store` holds the
//! engine, as the methods of the trait `EEPROM`; `array` a store in ordinary
//! memory. `model` says what each operation makes of the units of a store,
//! and `laws` what follows: that a value written is the value read back,
//! that other variables keep their values, and that the erasures go round
//! the ring of pages.

pub mod array;
pub mod codec;
pub mod error;
pub mod laws;
pub mod log;
pub mod log_lemmas;
pub mod model;
pub mod model_lemmas;
pub mod page;
pub mod store;

pub use array::ArrayEEPROM;
pub use codec::Variable;
pub use error::Error;
pub use page::PageHeader;
pub use store::EEPROM;
