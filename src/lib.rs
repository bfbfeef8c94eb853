//! An index-stable arena with slot reuse and explicit compaction, and a
//! deduplicating, reference-counted store of keyed values built on top of it.
//!
//! - `free_set`, `arena`: the arena and the trackers of its free slots.
//! - `key`, `id_map`, `laws`: the store, what it needs of its keys, and the
//!   laws its operations obey together.
//! - `bytes_ser`, `bytes_de`: a compact binary encoding of integers.
//! - the rest: small helpers the two build on or offer alongside.

pub mod free_set;
pub mod arena;
pub mod key;
pub mod id_map;
pub mod laws;
pub mod non_max;
pub mod rev_ord;
pub mod by_key;
pub mod by_ptr;
pub mod option_ext;
pub mod range_ext;
pub mod is_default;
pub mod trusted_index;
pub mod cvec;
pub mod nop_hasher;
pub mod vec_ext;
pub mod bytes_ser;
pub mod bytes_de;
pub mod bits_ext;
pub mod num_as;
