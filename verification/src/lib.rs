//! A named-register store for a text editor.
//!
//! Each register is addressed by a single character and holds an ordered
//! sequence of text fragments, typically one fragment per selection. Most
//! names are plain, user-writable slots; a fixed set of names are special
//! registers whose behaviour is computed from live editor state or backed by
//! an external clipboard:
//!
//! * Black hole (`_`): everything written is discarded, reads are empty
//! * Selection indices (`#`): the numbers `1..=N` of the live selections
//! * Selection contents (`.`): the text under each live selection
//! * Document path (`%`): the current document's file path
//! * System clipboard (`*`) and primary clipboard (`+`): backed by the
//!   platform clipboard, with a cached per-fragment breakdown

pub mod clipboard;
pub mod laws;
pub mod registers;
pub mod reconcile;
pub mod strings;
