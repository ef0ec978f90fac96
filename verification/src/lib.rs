//! Reveal ASCII art as a progress indicator: the verified core.
//!
//! Every ink cell of a picture gets a place in the reveal; a progress value
//! decides which cells are showing. This crate holds the parts of that engine
//! that are pure logic over integers, characters and grids: parsing art,
//! measuring display width, thinning and tracing the ink, the reveal
//! schedules, colour quantisation, viewport fitting, the bytes of each frame
//! the live loader and the diffing session write, terminal restoration, the
//! command-line protocol, and the option names the language bindings accept.

pub mod chars;
pub mod cli;
pub mod easing;
pub mod frame;
pub mod grid;
pub mod guard;
pub mod loader;
pub mod names;
pub mod ordering;
pub mod render;
pub mod schedule;
pub mod session;
pub mod term;
pub mod text;
pub mod width;
pub mod art;
