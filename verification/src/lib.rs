//! A byte-exact model of a console game's inventory manager, driven from
//! captured memory snapshots.
//!
//! The crate is layered bottom-up:
//!
//! - [`mem`] is a sparse address space, kept as blocks that never touch,
//!   with a typed pointer over it;
//! - [`traits`] says how a value lies in that space, and [`image`] how the
//!   fields of a structure lie in its bytes;
//! - [`script`] is the pattern of every change: a store, and then a fresh
//!   read of the structure that owns what was stored;
//! - [`list`] and [`sort`] are the game's intrusive list, [`slab`] its pool
//!   of slots, [`string`] its fixed-capacity string;
//! - [`types`], [`item`] and [`pmdm`] are the records of the inventory and
//!   the manager that owns them;
//! - [`pouch`] says what a sound inventory is and what the manager's
//!   operations do to one, [`pickup`] what a new item does to it,
//!   [`heads`] which item each category begins with, and [`search`] when
//!   an item is found;
//! - [`fs`] takes a snapshot apart, and [`lang`] looks up the names under
//!   which items show.
//!
//! Every operation reports failure as an [`error::Error`]; none panics.
pub mod error;
pub mod fs;
pub mod heads;
pub mod image;
pub mod item;
pub mod lang;
pub mod list;
pub mod mem;
pub mod pickup;
pub mod pmdm;
pub mod pouch;
pub mod script;
pub mod search;
pub mod slab;
pub mod sort;
pub mod string;
pub mod traits;
pub mod types;
