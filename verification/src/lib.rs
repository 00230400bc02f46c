//! Verified core of a terminal fire simulation: the heat palette, the
//! cellular-automaton fire grid, and the integer parts of scene layout and
//! rendering.
pub mod palette;
pub mod fire;
pub mod screen;
pub mod scene;
pub mod frame;
