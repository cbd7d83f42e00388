//! Derives, from the directory layout of a collection of game modification
//! packages, the maximum costume slot count each character requires, and
//! patches a baseline parameter tree so the game recognizes that many slots,
//! emitting the patch as a minimal textual diff document.

pub mod aliases;
pub mod emit;
pub mod patch;
pub mod prcdb;
pub mod scan;
pub mod slot_map;
