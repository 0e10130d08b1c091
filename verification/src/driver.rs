//! The controller driver: initialisation, RAM addressing, plane uploads,
//! fills and refresh, each recorded as a script.
use crate::cmd;
use crate::color::Color;
use crate::flag;
use crate::interface::{
    cmd_entries, cmd_trace, cmd_with_data_entries, cmd_with_data_trace, data_x_times_entries,
    data_x_times_trace, lemma_cmd_received,
    lemma_cmd_with_data_received, lemma_data_x_times_received, lemma_write_one_byte, reset_trace,
    write_trace, DisplayInterface, TransferMode,
};
use crate::script::{
    advance, advance_all, lemma_advance_done, lemma_failure_is_final, lemma_recovery_framed,
    Outcome, Progress, Script, Step,
};
use crate::signal::{lemma_received_concat, line_after, received, tagged, Line, Payload, Signal};
use crate::{Error, FRAME_BYTES, HEIGHT, WIDTH};
use vstd::prelude::*;

verus! {

/// Pause after the software reset, in milliseconds.
pub const SETTLE_DELAY_MS: u32 = 10;

/// Splits a 16-bit value into its high and its low byte, in this order.
pub fn split_u16(value: u16) -> (bytes: (u8, u8))
    ensures
        bytes.0 == value / 256,
        bytes.1 == value % 256,
        256 * bytes.0 + bytes.1 == value,
{
    assert(value >> 8 == value / 256) by (bit_vector);
    assert(value & 0xFF == value % 256) by (bit_vector);
    let high_byte = (value >> 8) as u8;
    let low_byte = (value & 0xFF) as u8;
    (high_byte, low_byte)
}

/// The RAM column byte of a horizontal pixel position: the position counted
/// in whole bytes of eight pixels, cut to eight bits.
pub open spec fn x_byte(x: u32) -> u8 {
    ((x / 8) % 256) as u8
}

/// Bits 0 to 7 of a vertical pixel position.
pub open spec fn low_byte(y: u32) -> u8 {
    (y % 256) as u8
}

/// Bits 8 to 15 of a vertical pixel position.
pub open spec fn high_byte(y: u32) -> u8 {
    ((y / 256) % 256) as u8
}

/// Payload of the X window command: first and last column byte.
pub open spec fn x_window(start_x: u32, end_x: u32) -> Seq<u8> {
    seq![x_byte(start_x), x_byte(end_x)]
}

/// Payload of the Y window command: first and last row, each low byte first.
pub open spec fn y_window(start_y: u32, end_y: u32) -> Seq<u8> {
    seq![low_byte(start_y), high_byte(start_y), low_byte(end_y), high_byte(end_y)]
}

/// Payload of the Y counter command: the row, low byte first.
pub open spec fn y_counter(y: u32) -> Seq<u8> {
    seq![low_byte(y), high_byte(y)]
}

/// Selecting a RAM window: the X range command, then the Y range command.
pub open spec fn set_ram_area_trace(
    mode: TransferMode,
    start_x: u32,
    start_y: u32,
    end_x: u32,
    end_y: u32,
) -> Seq<Signal> {
    cmd_with_data_trace(mode, cmd::SET_RAMXPOS, x_window(start_x, end_x)) + cmd_with_data_trace(
        mode,
        cmd::SET_RAMYPOS,
        y_window(start_y, end_y),
    )
}

/// Placing the RAM counter: the X counter command, then the Y counter command.
pub open spec fn set_ram_counter_trace(mode: TransferMode, x: u32, y: u32) -> Seq<Signal> {
    cmd_with_data_trace(mode, cmd::SET_RAMX_COUNTER, seq![x_byte(x)]) + cmd_with_data_trace(
        mode,
        cmd::SET_RAMY_COUNTER,
        y_counter(y),
    )
}

/// Addressing the whole panel: the window from the origin to the last pixel,
/// the counter at the origin.
pub open spec fn full_frame_trace(mode: TransferMode) -> Seq<Signal> {
    set_ram_area_trace(mode, 0, 0, (WIDTH - 1) as u32, (HEIGHT - 1) as u32)
        + set_ram_counter_trace(mode, 0, 0)
}

/// What initialisation does once the controller has been reset: wait until
/// it is idle, let it settle, then program update control 1, the border
/// waveform, the data entry mode, the full-panel addressing and the
/// temperature sensor, and wait again.
pub open spec fn configure_trace(mode: TransferMode) -> Seq<Signal> {
    seq![Signal::AwaitIdle] + seq![Signal::DelayMs(SETTLE_DELAY_MS)] + cmd_with_data_trace(
        mode,
        cmd::UPDATE_DISPLAY_CTRL1,
        seq![flag::UPDATE_CTRL1_RED_NORMAL, flag::UPDATE_CTRL1_SINGLE_CHIP],
    ) + cmd_with_data_trace(
        mode,
        cmd::BORDER_WAVEFORM_CONTROL,
        seq![flag::BORDER_WAVEFORM_FOLLOW_LUT1],
    ) + cmd_with_data_trace(mode, cmd::DATA_ENTRY_MODE, seq![flag::DATA_ENTRY_INCRY_INCRX])
        + full_frame_trace(mode) + cmd_with_data_trace(
        mode,
        cmd::TEMP_CONTROL,
        seq![flag::INTERNAL_TEMP_SENSOR],
    ) + seq![Signal::AwaitIdle]
}

/// The initialisation sequence: the hardware reset pulse, the software reset
/// command, then the configuration.
pub open spec fn init_trace(mode: TransferMode) -> Seq<Signal> {
    reset_trace() + cmd_trace(mode, cmd::SW_RESET) + configure_trace(mode)
}

/// Uploading a full plane: address the whole panel, then the plane's write
/// command with the buffer as its data.
pub open spec fn update_trace(mode: TransferMode, command: u8, buffer: Seq<u8>) -> Seq<Signal> {
    full_frame_trace(mode) + cmd_with_data_trace(mode, command, buffer)
}

/// Filling a full plane with one byte: address the whole panel, the plane's
/// write command once, then the byte once for every byte of the plane.
pub open spec fn clear_trace(mode: TransferMode, command: u8, value: u8) -> Seq<Signal> {
    full_frame_trace(mode) + cmd_trace(mode, command) + data_x_times_trace(
        mode,
        value,
        FRAME_BYTES as nat,
    )
}

/// Refreshing the panel: select the full refresh sequence, activate, wait
/// until the controller is idle again.
pub open spec fn display_trace(mode: TransferMode) -> Seq<Signal> {
    cmd_with_data_trace(mode, cmd::UPDATE_DISPLAY_CTRL2, seq![flag::DISPLAY_MODE_1]) + cmd_trace(
        mode,
        cmd::MASTER_ACTIVATE,
    ) + seq![Signal::AwaitIdle]
}

/// How many entries a script grows by when a window is selected.
pub open spec fn set_ram_area_entries(mode: TransferMode) -> nat {
    cmd_with_data_entries(mode, 2) + cmd_with_data_entries(mode, 4)
}

/// How many entries a script grows by when the counter is placed.
pub open spec fn set_ram_counter_entries(mode: TransferMode) -> nat {
    cmd_with_data_entries(mode, 1) + cmd_with_data_entries(mode, 2)
}

/// How many entries a script grows by when the whole panel is addressed.
pub open spec fn full_frame_entries(mode: TransferMode) -> nat {
    set_ram_area_entries(mode) + set_ram_counter_entries(mode)
}

/// How many entries a script grows by when the initialisation is recorded.
pub open spec fn init_entries(mode: TransferMode) -> nat {
    4 + cmd_entries(mode) + 2 + cmd_with_data_entries(mode, 2) + cmd_with_data_entries(mode, 1)
        + cmd_with_data_entries(mode, 1) + full_frame_entries(mode) + cmd_with_data_entries(
        mode,
        1,
    ) + 1
}

/// How many entries a script grows by when the upload of `len` bytes is
/// recorded.
pub open spec fn update_entries(mode: TransferMode, len: nat) -> nat {
    full_frame_entries(mode) + cmd_with_data_entries(mode, len)
}

/// How many entries a script grows by when a plane fill is recorded. The
/// size of the plane does not enter: the fill is a single entry.
pub open spec fn clear_entries(mode: TransferMode) -> nat {
    full_frame_entries(mode) + cmd_entries(mode) + data_x_times_entries()
}

/// How many entries a script grows by when a refresh is recorded.
pub open spec fn display_entries(mode: TransferMode) -> nat {
    cmd_with_data_entries(mode, 1) + cmd_entries(mode) + 1
}

/// The column byte of a position.
fn column_byte(x: u32) -> (byte: u8)
    ensures
        byte == x_byte(x),
{
    ((x / 8) % 256) as u8
}

/// The low and the high byte of a row.
fn row_bytes(y: u32) -> (bytes: (u8, u8))
    ensures
        bytes.0 == low_byte(y),
        bytes.1 == high_byte(y),
{
    let (high, low) = split_u16((y % 65536) as u16);
    (low, high)
}

/// A display controller together with its framing layer.
#[derive(Clone, Copy, Debug, PartialEq, Eq)]
pub struct Ssd1683 {
    interface: DisplayInterface,
}

impl Ssd1683 {
    /// The transfer mode of the bus behind this driver.
    pub closed spec fn mode(&self) -> TransferMode {
        self.interface.mode()
    }

    /// Creates the driver and records the initialisation sequence.
    pub fn new<'a>(script: &mut Script<'a>, mode: TransferMode) -> (driver: Ssd1683)
        requires
            mode.valid(),
        ensures
            driver.mode() == mode,
            final(script)@ == old(script)@ + init_trace(mode),
            final(script).entries() == old(script).entries() + init_entries(mode),
    {
        let interface = DisplayInterface::new(mode);
        let ssd1683 = Ssd1683 { interface };
        ssd1683.init(script);
        ssd1683
    }

    /// The transfer mode of the bus behind this driver.
    pub fn transfer_mode(&self) -> (mode: TransferMode)
        ensures
            mode == self.mode(),
            mode.valid(),
    {
        self.interface.transfer_mode()
    }

    /// Records the initialisation sequence: hardware reset, software reset,
    /// wait, settle, update control 1, border waveform, data entry mode,
    /// full-panel addressing, temperature sensor, wait.
    pub fn init<'a>(&self, script: &mut Script<'a>)
        ensures
            final(script)@ == old(script)@ + init_trace(self.mode()),
            final(script).entries() == old(script).entries() + init_entries(self.mode()),
    {
        let ghost m = self.mode();
        self.interface.reset(script);
        self.interface.cmd(script, cmd::SW_RESET);
        let ghost reset = script@;
        assert(reset =~= old(script)@ + (reset_trace() + cmd_trace(m, cmd::SW_RESET)));

        let ghost c1 = seq![Signal::AwaitIdle] + seq![Signal::DelayMs(SETTLE_DELAY_MS)];
        self.interface.wait_until_idle(script);
        script.push(Step::DelayMs(SETTLE_DELAY_MS));
        assert(script@ =~= reset + c1);

        let control: Vec<u8> = vec![flag::UPDATE_CTRL1_RED_NORMAL, flag::UPDATE_CTRL1_SINGLE_CHIP];
        assert(control@ =~= seq![flag::UPDATE_CTRL1_RED_NORMAL, flag::UPDATE_CTRL1_SINGLE_CHIP]);
        let ghost c2 = c1 + cmd_with_data_trace(m, cmd::UPDATE_DISPLAY_CTRL1, control@);
        self.interface.cmd_with_data(script, cmd::UPDATE_DISPLAY_CTRL1, Payload::Inline(control));
        assert(script@ =~= reset + c2);

        proof {
            flag::lemma_border_waveform_payload();
        }
        let border: Vec<u8> = vec![flag::BORDER_WAVEFORM_FOLLOW_LUT | flag::BORDER_WAVEFORM_LUT1];
        assert(border@ =~= seq![flag::BORDER_WAVEFORM_FOLLOW_LUT1]);
        let ghost c3 = c2 + cmd_with_data_trace(m, cmd::BORDER_WAVEFORM_CONTROL, border@);
        self.interface.cmd_with_data(script, cmd::BORDER_WAVEFORM_CONTROL, Payload::Inline(border));
        assert(script@ =~= reset + c3);

        let entry: Vec<u8> = vec![flag::DATA_ENTRY_INCRY_INCRX];
        assert(entry@ =~= seq![flag::DATA_ENTRY_INCRY_INCRX]);
        let ghost c4 = c3 + cmd_with_data_trace(m, cmd::DATA_ENTRY_MODE, entry@);
        self.interface.cmd_with_data(script, cmd::DATA_ENTRY_MODE, Payload::Inline(entry));
        assert(script@ =~= reset + c4);

        let ghost c5 = c4 + full_frame_trace(m);
        self.use_full_frame(script);
        assert(script@ =~= reset + c5);

        let sensor: Vec<u8> = vec![flag::INTERNAL_TEMP_SENSOR];
        assert(sensor@ =~= seq![flag::INTERNAL_TEMP_SENSOR]);
        let ghost c6 = c5 + cmd_with_data_trace(m, cmd::TEMP_CONTROL, sensor@);
        self.interface.cmd_with_data(script, cmd::TEMP_CONTROL, Payload::Inline(sensor));
        assert(script@ =~= reset + c6);

        self.interface.wait_until_idle(script);
        assert(c6 + seq![Signal::AwaitIdle] == configure_trace(m));
        assert(script@ =~= reset + configure_trace(m));
        assert(script@ =~= old(script)@ + init_trace(m));
    }

    /// Records the upload of a black/white plane: the whole panel is
    /// addressed, then the buffer goes out as it is behind the plane's write
    /// command. A full plane is [`FRAME_BYTES`] bytes; a buffer of any other
    /// length is streamed all the same, byte for byte.
    pub fn update_bw_frame<'a>(&self, script: &mut Script<'a>, buffer: &'a [u8]) -> (result:
        Result<(), Error>)
        ensures
            result is Ok,
            final(script)@ == old(script)@ + update_trace(
                self.mode(),
                cmd::WRITE_BW_DATA,
                buffer@,
            ),
            final(script).entries() == old(script).entries() + update_entries(
                self.mode(),
                buffer@.len(),
            ),
    {
        self.update_frame(script, cmd::WRITE_BW_DATA, buffer);
        Ok(())
    }

    /// Records the upload of a red plane: the whole panel is addressed, then
    /// the buffer goes out as it is behind the plane's write command. A full
    /// plane is [`FRAME_BYTES`] bytes; a buffer of any other length is
    /// streamed all the same, byte for byte.
    pub fn update_red_frame<'a>(&self, script: &mut Script<'a>, buffer: &'a [u8]) -> (result:
        Result<(), Error>)
        ensures
            result is Ok,
            final(script)@ == old(script)@ + update_trace(
                self.mode(),
                cmd::WRITE_RED_DATA,
                buffer@,
            ),
            final(script).entries() == old(script).entries() + update_entries(
                self.mode(),
                buffer@.len(),
            ),
    {
        self.update_frame(script, cmd::WRITE_RED_DATA, buffer);
        Ok(())
    }

    /// Records the upload of a plane through the given write command.
    fn update_frame<'a>(&self, script: &mut Script<'a>, command: u8, buffer: &'a [u8])
        ensures
            final(script)@ == old(script)@ + update_trace(self.mode(), command, buffer@),
            final(script).entries() == old(script).entries() + update_entries(
                self.mode(),
                buffer@.len(),
            ),
    {
        self.use_full_frame(script);
        self.interface.cmd_with_data(script, command, Payload::Frame(buffer));
        assert(script@ =~= old(script)@ + update_trace(self.mode(), command, buffer@));
    }

    /// Records a refresh of the panel from what the planes hold.
    pub fn display_frame<'a>(&self, script: &mut Script<'a>)
        ensures
            final(script)@ == old(script)@ + display_trace(self.mode()),
            final(script).entries() == old(script).entries() + display_entries(self.mode()),
    {
        let sequence: Vec<u8> = vec![flag::DISPLAY_MODE_1];
        assert(sequence@ =~= seq![flag::DISPLAY_MODE_1]);
        self.interface.cmd_with_data(script, cmd::UPDATE_DISPLAY_CTRL2, Payload::Inline(sequence));
        self.interface.cmd(script, cmd::MASTER_ACTIVATE);
        self.interface.wait_until_idle(script);
        assert(script@ =~= old(script)@ + display_trace(self.mode()));
    }

    /// Records filling the whole black/white plane with one colour.
    pub fn clear_bw_frame<'a>(&self, script: &mut Script<'a>, color: Color)
        ensures
            final(script)@ == old(script)@ + clear_trace(
                self.mode(),
                cmd::WRITE_BW_DATA,
                color.byte_value(),
            ),
            final(script).entries() == old(script).entries() + clear_entries(self.mode()),
    {
        self.use_full_frame(script);
        let color = color.byte_value();
        let reps: u32 = (WIDTH as u32 * HEIGHT as u32) / 8;
        self.interface.cmd(script, cmd::WRITE_BW_DATA);
        self.interface.data_x_times(script, color, reps);
        assert(script@ =~= old(script)@ + clear_trace(self.mode(), cmd::WRITE_BW_DATA, color));
    }

    /// Records filling the whole red plane with the inverse of white, which
    /// leaves no pixel red.
    pub fn clear_red_frame<'a>(&self, script: &mut Script<'a>)
        ensures
            final(script)@ == old(script)@ + clear_trace(
                self.mode(),
                cmd::WRITE_RED_DATA,
                Color::White.inverse().byte_value(),
            ),
            final(script).entries() == old(script).entries() + clear_entries(self.mode()),
    {
        self.use_full_frame(script);
        let color = Color::White.inverse().byte_value();
        self.interface.cmd(script, cmd::WRITE_RED_DATA);
        self.interface.data_x_times(script, color, (WIDTH as u32 * HEIGHT as u32) / 8);
        assert(script@ =~= old(script)@ + clear_trace(self.mode(), cmd::WRITE_RED_DATA, color));
    }

    /// Records addressing the whole panel: full window, counter at the origin.
    pub fn use_full_frame<'a>(&self, script: &mut Script<'a>)
        ensures
            final(script)@ == old(script)@ + full_frame_trace(self.mode()),
            final(script).entries() == old(script).entries() + full_frame_entries(self.mode()),
    {
        let selected = self.set_ram_area(script, 0, 0, WIDTH as u32 - 1, HEIGHT as u32 - 1);
        assert(selected is Ok);
        self.set_ram_counter(script, 0, 0);
        assert(script@ =~= old(script)@ + full_frame_trace(self.mode()));
    }

    /// Records the selection of a RAM window, given by its first and last
    /// pixel. A window that does not start strictly before its end on both
    /// axes is refused and nothing is recorded.
    pub fn set_ram_area<'a>(
        &self,
        script: &mut Script<'a>,
        start_x: u32,
        start_y: u32,
        end_x: u32,
        end_y: u32,
    ) -> (result: Result<(), Error>)
        ensures
            start_x < end_x && start_y < end_y ==> result is Ok && final(script)@ == old(script)@
                + set_ram_area_trace(self.mode(), start_x, start_y, end_x, end_y),
            start_x < end_x && start_y < end_y ==> final(script).entries() == old(
                script,
            ).entries() + set_ram_area_entries(self.mode()),
            !(start_x < end_x && start_y < end_y) ==> result == Err::<(), Error>(
                Error::InvalidArgument,
            ) && *final(script) == *old(script),
    {
        if start_x >= end_x || start_y >= end_y {
            return Err(Error::InvalidArgument);
        }
        let x_pos: Vec<u8> = vec![column_byte(start_x), column_byte(end_x)];
        assert(x_pos@ =~= x_window(start_x, end_x));
        self.interface.cmd_with_data(script, cmd::SET_RAMXPOS, Payload::Inline(x_pos));

        let (start_low, start_high) = row_bytes(start_y);
        let (end_low, end_high) = row_bytes(end_y);
        let y_pos: Vec<u8> = vec![start_low, start_high, end_low, end_high];
        assert(y_pos@ =~= y_window(start_y, end_y));
        self.interface.cmd_with_data(script, cmd::SET_RAMYPOS, Payload::Inline(y_pos));
        assert(script@ =~= old(script)@ + set_ram_area_trace(
            self.mode(),
            start_x,
            start_y,
            end_x,
            end_y,
        ));
        Ok(())
    }

    /// Records placing the RAM counter on a pixel.
    pub fn set_ram_counter<'a>(&self, script: &mut Script<'a>, x: u32, y: u32)
        ensures
            final(script)@ == old(script)@ + set_ram_counter_trace(self.mode(), x, y),
            final(script).entries() == old(script).entries() + set_ram_counter_entries(
                self.mode(),
            ),
    {
        // The column is addressed in bytes: the three bits that place a
        // pixel inside its byte do not go out.
        let x_ram_counter: Vec<u8> = vec![column_byte(x)];
        assert(x_ram_counter@ =~= seq![x_byte(x)]);
        self.interface.cmd_with_data(script, cmd::SET_RAMX_COUNTER, Payload::Inline(x_ram_counter));

        let (low, high) = row_bytes(y);
        let y_ram_counter: Vec<u8> = vec![low, high];
        assert(y_ram_counter@ =~= y_counter(y));
        self.interface.cmd_with_data(script, cmd::SET_RAMY_COUNTER, Payload::Inline(y_ram_counter));
        assert(script@ =~= old(script)@ + set_ram_counter_trace(self.mode(), x, y));
    }
}

/// Inside the panel the position bytes lose nothing: the column byte is the
/// position shifted right by three, and the two row bytes, low byte first,
/// are the row as a 16-bit number.
pub proof fn lemma_position_bytes(x: u32, y: u32)
    requires
        x < WIDTH,
        y < HEIGHT,
    ensures
        x_byte(x) == x >> 3,
        low_byte(y) + 256 * high_byte(y) == y,
{
    assert(x >> 3 == x / 8) by (bit_vector);
}

/// For every position the bytes are cut from it bit by bit: bits 3 to 10 of
/// the column, bits 0 to 7 and 8 to 15 of the row.
pub proof fn lemma_position_bits(x: u32, y: u32)
    ensures
        x_byte(x) == (x >> 3) & 0xFF,
        low_byte(y) == y & 0xFF,
        high_byte(y) == (y >> 8) & 0xFF,
{
    assert((x / 8) % 256 == (x >> 3) & 0xFF) by (bit_vector);
    assert(y % 256 == y & 0xFF) by (bit_vector);
    assert((y / 256) % 256 == (y >> 8) & 0xFF) by (bit_vector);
}

/// What the controller receives when a window is selected.
pub open spec fn set_ram_area_received(start_x: u32, start_y: u32, end_x: u32, end_y: u32) -> Seq<
    (Line, u8),
> {
    seq![
        (Line::Command, cmd::SET_RAMXPOS),
        (Line::Data, x_byte(start_x)),
        (Line::Data, x_byte(end_x)),
        (Line::Command, cmd::SET_RAMYPOS),
        (Line::Data, low_byte(start_y)),
        (Line::Data, high_byte(start_y)),
        (Line::Data, low_byte(end_y)),
        (Line::Data, high_byte(end_y)),
    ]
}

/// What the controller receives when the counter is placed.
pub open spec fn set_ram_counter_received(x: u32, y: u32) -> Seq<(Line, u8)> {
    seq![
        (Line::Command, cmd::SET_RAMX_COUNTER),
        (Line::Data, x_byte(x)),
        (Line::Command, cmd::SET_RAMY_COUNTER),
        (Line::Data, low_byte(y)),
        (Line::Data, high_byte(y)),
    ]
}

/// Selecting a window sends exactly two commands: the X range with the two
/// column bytes, then the Y range with the two rows, each row low byte first.
/// This holds in every transfer mode and wherever the select line stood.
pub proof fn lemma_set_ram_area_received(
    mode: TransferMode,
    start_x: u32,
    start_y: u32,
    end_x: u32,
    end_y: u32,
    line: Line,
)
    requires
        mode.valid(),
    ensures
        received(set_ram_area_trace(mode, start_x, start_y, end_x, end_y), line)
            == set_ram_area_received(start_x, start_y, end_x, end_y),
        line_after(set_ram_area_trace(mode, start_x, start_y, end_x, end_y), line) == Line::Data,
{
    let xs = x_window(start_x, end_x);
    let ys = y_window(start_y, end_y);
    lemma_cmd_with_data_received(mode, cmd::SET_RAMXPOS, xs, line);
    lemma_cmd_with_data_received(mode, cmd::SET_RAMYPOS, ys, Line::Data);
    lemma_received_concat(
        cmd_with_data_trace(mode, cmd::SET_RAMXPOS, xs),
        cmd_with_data_trace(mode, cmd::SET_RAMYPOS, ys),
        line,
    );
    assert(seq![(Line::Command, cmd::SET_RAMXPOS)] + tagged(xs, Line::Data) + (seq![
        (Line::Command, cmd::SET_RAMYPOS),
    ] + tagged(ys, Line::Data)) =~= set_ram_area_received(start_x, start_y, end_x, end_y));
}

/// Placing the counter sends exactly two commands: the X counter with the
/// one column byte, then the Y counter with the row, low byte first. This
/// holds in every transfer mode and wherever the select line stood.
pub proof fn lemma_set_ram_counter_received(mode: TransferMode, x: u32, y: u32, line: Line)
    requires
        mode.valid(),
    ensures
        received(set_ram_counter_trace(mode, x, y), line) == set_ram_counter_received(x, y),
        line_after(set_ram_counter_trace(mode, x, y), line) == Line::Data,
{
    let xs = seq![x_byte(x)];
    let ys = y_counter(y);
    lemma_cmd_with_data_received(mode, cmd::SET_RAMX_COUNTER, xs, line);
    lemma_cmd_with_data_received(mode, cmd::SET_RAMY_COUNTER, ys, Line::Data);
    lemma_received_concat(
        cmd_with_data_trace(mode, cmd::SET_RAMX_COUNTER, xs),
        cmd_with_data_trace(mode, cmd::SET_RAMY_COUNTER, ys),
        line,
    );
    assert(seq![(Line::Command, cmd::SET_RAMX_COUNTER)] + tagged(xs, Line::Data) + (seq![
        (Line::Command, cmd::SET_RAMY_COUNTER),
    ] + tagged(ys, Line::Data)) =~= set_ram_counter_received(x, y));
}

/// What the controller receives when the whole panel is addressed.
pub open spec fn full_frame_received() -> Seq<(Line, u8)> {
    set_ram_area_received(0, 0, (WIDTH - 1) as u32, (HEIGHT - 1) as u32)
        + set_ram_counter_received(0, 0)
}

/// Addressing the whole panel sends the window from the origin to the last
/// pixel and the counter at the origin, and leaves the select line in data
/// state.
pub proof fn lemma_full_frame_received(mode: TransferMode, line: Line)
    requires
        mode.valid(),
    ensures
        received(full_frame_trace(mode), line) == full_frame_received(),
        line_after(full_frame_trace(mode), line) == Line::Data,
{
    let right = (WIDTH - 1) as u32;
    let bottom = (HEIGHT - 1) as u32;
    lemma_set_ram_area_received(mode, 0, 0, right, bottom, line);
    lemma_set_ram_counter_received(mode, 0, 0, Line::Data);
    lemma_received_concat(
        set_ram_area_trace(mode, 0, 0, right, bottom),
        set_ram_counter_trace(mode, 0, 0),
        line,
    );
}

/// A plane upload delivers, after the addressing, the plane's write command
/// and then the buffer byte for byte as data.
pub proof fn lemma_update_received(mode: TransferMode, command: u8, buffer: Seq<u8>, line: Line)
    requires
        mode.valid(),
    ensures
        received(update_trace(mode, command, buffer), line) == full_frame_received() + seq![
            (Line::Command, command),
        ] + tagged(buffer, Line::Data),
        line_after(update_trace(mode, command, buffer), line) == Line::Data,
{
    lemma_full_frame_received(mode, line);
    lemma_cmd_with_data_received(mode, command, buffer, Line::Data);
    lemma_received_concat(
        full_frame_trace(mode),
        cmd_with_data_trace(mode, command, buffer),
        line,
    );
    assert(full_frame_received() + (seq![(Line::Command, command)] + tagged(buffer, Line::Data))
        =~= full_frame_received() + seq![(Line::Command, command)] + tagged(buffer, Line::Data));
}

/// A plane fill delivers, after the addressing, the plane's write command
/// once and then the fill byte as data exactly once for every byte of the
/// plane, and nothing else.
pub proof fn lemma_clear_received(mode: TransferMode, command: u8, value: u8, line: Line)
    requires
        mode.valid(),
    ensures
        received(clear_trace(mode, command, value), line) == full_frame_received() + seq![
            (Line::Command, command),
        ] + Seq::new(FRAME_BYTES as nat, |i: int| (Line::Data, value)),
        line_after(clear_trace(mode, command, value), line) == Line::Data,
{
    let fill = data_x_times_trace(mode, value, FRAME_BYTES as nat);
    lemma_full_frame_received(mode, line);
    lemma_cmd_received(mode, command, Line::Data);
    lemma_data_x_times_received(mode, value, FRAME_BYTES as nat, Line::Data);
    lemma_received_concat(full_frame_trace(mode), cmd_trace(mode, command), line);
    lemma_received_concat(full_frame_trace(mode) + cmd_trace(mode, command), fill, line);
}

/// A refresh delivers the update control 2 command with the full refresh
/// sequence as its data, then the activation command.
pub proof fn lemma_display_received(mode: TransferMode, line: Line)
    requires
        mode.valid(),
    ensures
        received(display_trace(mode), line) == seq![
            (Line::Command, cmd::UPDATE_DISPLAY_CTRL2),
            (Line::Data, flag::DISPLAY_MODE_1),
            (Line::Command, cmd::MASTER_ACTIVATE),
        ],
{
    let select = cmd_with_data_trace(mode, cmd::UPDATE_DISPLAY_CTRL2, seq![flag::DISPLAY_MODE_1]);
    let activate = cmd_trace(mode, cmd::MASTER_ACTIVATE);
    lemma_cmd_with_data_received(mode, cmd::UPDATE_DISPLAY_CTRL2, seq![flag::DISPLAY_MODE_1], line);
    lemma_cmd_received(mode, cmd::MASTER_ACTIVATE, Line::Data);
    crate::signal::lemma_received_one(Signal::AwaitIdle, Line::Data);
    lemma_received_concat(select, activate, line);
    lemma_received_concat(select + activate, seq![Signal::AwaitIdle], line);
    assert(tagged(seq![flag::DISPLAY_MODE_1], Line::Data) =~= seq![
        (Line::Data, flag::DISPLAY_MODE_1),
    ]);
    assert(received(display_trace(mode), line) =~= seq![
        (Line::Command, cmd::UPDATE_DISPLAY_CTRL2),
        (Line::Data, flag::DISPLAY_MODE_1),
        (Line::Command, cmd::MASTER_ACTIVATE),
    ]);
}

/// A command in front of anything else, after four line operations: the
/// sixth line operation is the first bus call of the command, and what is
/// pending from there on is the command's bus calls, the turn of the select
/// line back to its data state, and the rest.
proof fn lemma_command_after_pulse(pulse: Seq<Signal>, calls: Seq<Signal>, rest: Seq<Signal>)
    requires
        pulse.len() == 4,
        calls.len() > 0,
    ensures
        (pulse + (seq![Signal::SelectCommand] + calls + seq![Signal::SelectData]) + rest).skip(5)
            == seq![calls[0]] + calls.skip(1) + seq![Signal::SelectData] + rest,
        (pulse + (seq![Signal::SelectCommand] + calls + seq![Signal::SelectData]) + rest).len()
            > 5,
{
    let all = pulse + (seq![Signal::SelectCommand] + calls + seq![Signal::SelectData]) + rest;
    assert(all.skip(5) =~= seq![calls[0]] + calls.skip(1) + seq![Signal::SelectData] + rest);
}

/// Initialisation reaches the software reset command after the reset pulse
/// and the turn of the select line, five line operations in all. If the bus
/// fails on that write, no later part of the initialisation is ever carried
/// out: the select line is put back into its data state, which ends the
/// command, and the transaction stays failed whatever is reported afterwards.
pub proof fn lemma_reset_command_failure(mode: TransferMode, later: Seq<Outcome>)
    requires
        mode.valid(),
    ensures
        ({
            let start = Progress { pending: init_trace(mode), failed: false };
            let reached = advance_all(start, Seq::new(5, |i: int| Outcome::Done));
            let failed = advance(reached, Outcome::BusError);
            let ended = advance_all(failed, later);
            &&& !reached.failed
            &&& reached.pending.len() > 0
            &&& reached.pending[0] == Signal::Write(seq![cmd::SW_RESET])
            &&& failed == Progress { pending: seq![Signal::SelectData], failed: true }
            &&& ended.failed
            &&& ended.pending == seq![Signal::SelectData] || ended.pending == Seq::<
                Signal,
            >::empty()
        }),
{
    let start = Progress { pending: init_trace(mode), failed: false };
    let calls = write_trace(mode, seq![cmd::SW_RESET]);
    let rest = configure_trace(mode);
    lemma_write_one_byte(mode, cmd::SW_RESET);
    assert(calls.len() > 0 && calls[0] == Signal::Write(seq![cmd::SW_RESET]));
    lemma_command_after_pulse(reset_trace(), calls, rest);
    lemma_advance_done(start, 5);
    let reached = advance_all(start, Seq::new(5, |i: int| Outcome::Done));
    assert(reached.pending == seq![calls[0]] + calls.skip(1) + seq![Signal::SelectData] + rest);
    assert forall|i: int| 0 <= i < calls.skip(1).len() implies crate::script::is_bus_call(
        #[trigger] calls.skip(1)[i],
    ) by {
        assert(calls.skip(1)[i] == calls[i + 1]);
    }
    lemma_recovery_framed(calls[0], calls.skip(1), rest);
    lemma_failure_is_final(advance(reached, Outcome::BusError), later);
}

} // verus!
