//! Turns a compact textual description of a recursively subdivided
//! rectangular region into a concrete, non-overlapping, exactly tiling set of
//! sub-rectangles with integer coordinates on a fixed 100 x 100 canvas.
//!
//! The two working parts are the layout parser (`parser`), which turns a
//! description string into an `Instruction` tree, and the partition engine
//! (`instruction`, `zone`), which walks that tree against a starting
//! rectangle and produces the leaf rectangles.

pub mod arena;
pub mod instruction;
pub mod laws;
pub mod parser;
pub mod ratio;
pub mod zone;
