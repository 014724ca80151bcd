//! Desktop automation by sight: locate small reference images in a frame of
//! the screen and advance a state machine on what was found.
//!
//! The `image` module holds the rasters and the template matcher, the `fsm`
//! module the state machine. Both are verified; capturing the screen and
//! moving the mouse are left to the program that uses this library.

pub mod context;
pub mod error;
pub mod fsm;
pub mod image;

pub use error::Error;
