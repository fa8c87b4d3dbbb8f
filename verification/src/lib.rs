//! A small systems library built around an ID manager: a bidirectional
//! associative store that hands out monotonically increasing identifiers
//! for user values and supports lookup in both directions.

pub mod id_manager;
pub mod mem;
pub mod smart_pointers;
