//! Verified core of a local whiteboard: the item store with its z-order,
//! undoable commands and their history, the crash-recovery journal format,
//! the pointer state machine, the index topology of stroke meshes, and the
//! decoding of pasted images.
use vstd::prelude::*;

pub mod actions;
pub mod command;
pub mod growable;
pub mod history;
pub mod input;
pub mod journal;
pub mod keys;
pub mod mesh;
pub mod paste;
pub mod restore;
pub mod scene;
pub mod tool;

verus! {

} // verus!
