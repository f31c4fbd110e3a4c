//! What holds of every reflow: the words stay, the lines that are no prose
//! stay, the width and the indentation are kept, and a second reflow changes
//! nothing.

pub mod runs;
pub mod preservation;
pub mod fidelity;
pub mod packing;
pub mod occurrence;
pub mod bounds;
pub mod lines;
pub mod idempotence;
pub mod segments;
pub mod atoms;
