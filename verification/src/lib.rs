//! A three colour (white, grey, black) incremental garbage collector.
//!
//! A collector (`GcEnv`) holds values of a type that implements `Mark` and
//! hands out `Gc` handles on them. Objects start white; roots and objects
//! reached by marking turn grey and then black; a sweep releases what is
//! still white and starts the next cycle.
pub mod collector;
pub mod gc;
pub mod laws;
pub mod model;
mod seq_lemmas;

pub use collector::{GcEnv, InGcEnv, Mark};
pub use model::{Gc, GcColor, MAX_WHITES};
