//! Bit flags used as command payloads.
use vstd::prelude::*;

verus! {

/// Data entry mode: increment Y, increment X, update the counter in X direction.
pub const DATA_ENTRY_INCRY_INCRX: u8 = 0x03;

/// Temperature sensor control: use the internal sensor.
pub const INTERNAL_TEMP_SENSOR: u8 = 0x80;

/// Border waveform: follow the look-up table.
pub const BORDER_WAVEFORM_FOLLOW_LUT: u8 = 0x04;

/// Border waveform: look-up table group 0.
pub const BORDER_WAVEFORM_LUT0: u8 = 0x00;

/// Border waveform: look-up table group 1.
pub const BORDER_WAVEFORM_LUT1: u8 = 0x01;

/// Border waveform payload written at initialisation: follow the look-up
/// table, group 1.
pub const BORDER_WAVEFORM_FOLLOW_LUT1: u8 = 0x05;

/// Display update control 2: the standard full refresh sequence.
pub const DISPLAY_MODE_1: u8 = 0xF7;

/// Display update control 1, first byte: bypass inversion of the red plane.
pub const UPDATE_CTRL1_RED_NORMAL: u8 = 0x40;

/// Display update control 1, second byte: single-chip application.
pub const UPDATE_CTRL1_SINGLE_CHIP: u8 = 0x00;

/// The combined border payload is the bitwise union of its two flags.
pub proof fn lemma_border_waveform_payload()
    ensures
        BORDER_WAVEFORM_FOLLOW_LUT1 == BORDER_WAVEFORM_FOLLOW_LUT | BORDER_WAVEFORM_LUT1,
{
    assert(0x05u8 == 0x04u8 | 0x01u8) by (bit_vector);
}

} // verus!
