//! Protocol core for SSD1683-class black/white/red e-paper controllers.
//!
//! The crate performs no I/O. Every driver operation records the exact
//! sequence of line operations it consists of into a [`script::Script`];
//! a [`script::Transaction`] then hands those operations out one at a
//! time and decides, from the outcome reported for each, what happens next.
//! Whoever owns the pins and the bus performs the operations.
use vstd::prelude::*;

pub mod cmd;
pub mod color;
pub mod driver;
pub mod flag;
pub mod interface;
pub mod script;
pub mod signal;
pub mod soft_spi;

pub use crate::color::Color;
pub use crate::driver::Ssd1683;
pub use crate::interface::{DisplayInterface, TransferMode};
pub use crate::script::{Action, Outcome, Script, Step, Transaction};
pub use crate::signal::Payload;
pub use crate::soft_spi::{PinOp, Shift, SoftSpi};

verus! {

/// Panel width in pixels. A row is packed eight pixels to the byte, so the
/// width is a multiple of eight.
pub const WIDTH: u16 = 128;

/// Panel height in pixels.
pub const HEIGHT: u16 = 296;

/// Number of bytes in one full plane of the panel.
pub const FRAME_BYTES: u32 = 4736;

/// The plane size is the pixel count divided by eight, with nothing left over.
pub proof fn lemma_frame_bytes()
    ensures
        FRAME_BYTES == (WIDTH as int * HEIGHT as int) / 8,
        WIDTH % 8 == 0,
{
}

/// What a driver operation can report besides success.
#[derive(Clone, Copy, Debug, PartialEq, Eq, Structural)]
pub enum Error {
    /// An argument broke the operation's contract: a window that does not
    /// start strictly before its end on both axes.
    InvalidArgument,
    /// The bus reported a failure while a script was being carried out.
    Bus,
}

} // verus!
