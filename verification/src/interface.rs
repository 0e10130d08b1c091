//! Command and data framing on the link to the controller.
use crate::script::{
    all_bus_calls, burst, is_bus_call, lemma_recovery_framed, lemma_recovery_unframed,
    lemma_repeat_is_bus_calls, lemma_repeat_len, recovery, repeat, Script, Step,
};
use crate::signal::{
    lemma_received_concat, lemma_received_one, lemma_tagged_concat, line_after, received, tagged,
    Line, Payload, Signal,
};
use vstd::prelude::*;

verus! {

/// Length of each half of the hardware reset pulse, in milliseconds.
pub const RESET_DELAY_MS: u32 = 10;

/// The largest transfer that the Linux spidev driver takes in one call by
/// default.
pub const SPIDEV_CEILING: usize = 4096;

/// How a logical write reaches the bus.
#[derive(Clone, Copy, Debug, PartialEq, Eq, Structural)]
pub enum TransferMode {
    /// The bus takes any length: one write call, then a flush.
    Whole,
    /// The bus takes at most this many bytes per call: the bytes go out in
    /// consecutive pieces of that size, the last one as long as what is left,
    /// and no flush follows.
    Chunked(usize),
}

impl TransferMode {
    /// A ceiling of zero bytes would never get anything across.
    pub open spec fn valid(self) -> bool {
        self matches TransferMode::Chunked(ceiling) ==> ceiling > 0
    }
}

/// The bus calls that carry `bytes` across in pieces of at most `ceiling`
/// bytes.
pub open spec fn chunked(bytes: Seq<u8>, ceiling: nat) -> Seq<Signal>
    decreases bytes.len(),
{
    if bytes.len() == 0 || ceiling == 0 {
        Seq::empty()
    } else {
        let n = if bytes.len() <= ceiling {
            bytes.len() as int
        } else {
            ceiling as int
        };
        seq![Signal::Write(bytes.take(n))] + chunked(bytes.skip(n), ceiling)
    }
}

/// The bus calls of one logical write.
pub open spec fn write_trace(mode: TransferMode, bytes: Seq<u8>) -> Seq<Signal> {
    match mode {
        TransferMode::Whole => seq![Signal::Write(bytes), Signal::Flush],
        TransferMode::Chunked(ceiling) => chunked(bytes, ceiling as nat),
    }
}

/// Into how many pieces of at most `ceiling` bytes a run of `len` bytes goes.
pub open spec fn chunk_count(len: nat, ceiling: nat) -> nat
    decreases len,
{
    if len == 0 || ceiling == 0 {
        0
    } else {
        let n = if len <= ceiling {
            len
        } else {
            ceiling
        };
        1 + chunk_count((len - n) as nat, ceiling)
    }
}

/// How many entries a script grows by when a logical write of `len` bytes is
/// recorded: the write and its flush, or one entry for every piece.
pub open spec fn write_entries(mode: TransferMode, len: nat) -> nat {
    match mode {
        TransferMode::Whole => 2,
        TransferMode::Chunked(ceiling) => chunk_count(len, ceiling as nat),
    }
}

/// How many entries a script grows by when a command is recorded.
pub open spec fn cmd_entries(mode: TransferMode) -> nat {
    2 + write_entries(mode, 1)
}

/// How many entries a script grows by when a data transfer of `len` bytes is
/// recorded.
pub open spec fn data_entries(mode: TransferMode, len: nat) -> nat {
    2 + write_entries(mode, len)
}

/// How many entries a script grows by when a command with `len` bytes of
/// data is recorded.
pub open spec fn cmd_with_data_entries(mode: TransferMode, len: nat) -> nat {
    cmd_entries(mode) + data_entries(mode, len)
}

/// How many entries a script grows by when a fill is recorded, however many
/// bytes it fills: the turn of the select line and the fill itself.
pub open spec fn data_x_times_entries() -> nat {
    2
}

/// A command: select line to command state, the opcode, select line back to
/// data state.
pub open spec fn cmd_trace(mode: TransferMode, command: u8) -> Seq<Signal> {
    seq![Signal::SelectCommand] + write_trace(mode, seq![command]) + seq![Signal::SelectData]
}

/// A data transfer: select line to data state, the bytes, select line to data
/// state again.
pub open spec fn data_trace(mode: TransferMode, bytes: Seq<u8>) -> Seq<Signal> {
    seq![Signal::SelectData] + write_trace(mode, bytes) + seq![Signal::SelectData]
}

/// A command followed by its data.
pub open spec fn cmd_with_data_trace(mode: TransferMode, command: u8, bytes: Seq<u8>) -> Seq<
    Signal,
> {
    cmd_trace(mode, command) + data_trace(mode, bytes)
}

/// One byte sent over and over: select line to data state, then `count`
/// logical writes of that byte.
pub open spec fn data_x_times_trace(mode: TransferMode, value: u8, count: nat) -> Seq<Signal> {
    seq![Signal::SelectData] + repeat(write_trace(mode, seq![value]), count)
}

/// The hardware reset pulse: reset line low, settle, reset line high, settle.
pub open spec fn reset_trace() -> Seq<Signal> {
    seq![
        Signal::ResetLow,
        Signal::DelayMs(RESET_DELAY_MS),
        Signal::ResetHigh,
        Signal::DelayMs(RESET_DELAY_MS),
    ]
}

/// Bytes that fit under the ceiling go out in one piece.
pub proof fn lemma_chunk_count_fits(len: nat, ceiling: nat)
    requires
        0 < len <= ceiling,
    ensures
        chunk_count(len, ceiling) == 1,
{
    assert(chunk_count(0, ceiling) == 0);
}

/// Every piece is one bus call: the pieces of a run of bytes are as many as
/// `chunk_count` says.
pub proof fn lemma_chunked_len(bytes: Seq<u8>, ceiling: nat)
    ensures
        chunked(bytes, ceiling).len() == chunk_count(bytes.len(), ceiling),
    decreases bytes.len(),
{
    if bytes.len() > 0 && ceiling > 0 {
        let n = if bytes.len() <= ceiling {
            bytes.len() as int
        } else {
            ceiling as int
        };
        lemma_chunked_len(bytes.skip(n), ceiling);
    }
}

/// A logical write of a single byte is one bus call, flushed or not as the
/// mode says.
pub proof fn lemma_write_one_byte(mode: TransferMode, value: u8)
    requires
        mode.valid(),
    ensures
        write_trace(mode, seq![value]) == burst(seq![value], mode is Whole),
{
    if let TransferMode::Chunked(ceiling) = mode {
        let bytes = seq![value];
        assert(bytes.take(1) =~= bytes);
        assert(bytes.skip(1) =~= Seq::<u8>::empty());
        assert(chunked(bytes.skip(1), ceiling as nat) =~= Seq::<Signal>::empty());
        assert(chunked(bytes, ceiling as nat) =~= seq![Signal::Write(bytes)]);
    }
}

/// A fill of `count` bytes takes one turn of the select line and then one
/// bus call per byte, two where every write is flushed.
pub proof fn lemma_data_x_times_len(mode: TransferMode, value: u8, count: nat)
    requires
        mode.valid(),
    ensures
        data_x_times_trace(mode, value, count).len() == 1 + count * (if mode is Whole {
            2nat
        } else {
            1nat
        }),
{
    lemma_write_one_byte(mode, value);
    lemma_repeat_len(write_trace(mode, seq![value]), count);
}

/// Cutting a write into pieces changes nothing for the controller: it
/// receives the bytes in order, all under the select state that the write
/// started with, and the select line is left alone.
pub proof fn lemma_chunked_received(bytes: Seq<u8>, ceiling: nat, line: Line)
    requires
        ceiling > 0,
    ensures
        received(chunked(bytes, ceiling), line) == tagged(bytes, line),
        line_after(chunked(bytes, ceiling), line) == line,
    decreases bytes.len(),
{
    if bytes.len() == 0 {
        assert(tagged(bytes, line) =~= Seq::<(Line, u8)>::empty());
    } else {
        let n = if bytes.len() <= ceiling {
            bytes.len() as int
        } else {
            ceiling as int
        };
        let head = seq![Signal::Write(bytes.take(n))];
        let tail = chunked(bytes.skip(n), ceiling);
        lemma_received_one(Signal::Write(bytes.take(n)), line);
        lemma_received_concat(head, tail, line);
        lemma_chunked_received(bytes.skip(n), ceiling, line);
        lemma_tagged_concat(bytes.take(n), bytes.skip(n), line);
        assert(bytes.take(n) + bytes.skip(n) =~= bytes);
    }
}

/// A logical write delivers its bytes in order under the select state it
/// started with, whatever the transfer mode.
pub proof fn lemma_write_received(mode: TransferMode, bytes: Seq<u8>, line: Line)
    requires
        mode.valid(),
    ensures
        received(write_trace(mode, bytes), line) == tagged(bytes, line),
        line_after(write_trace(mode, bytes), line) == line,
{
    match mode {
        TransferMode::Whole => {
            lemma_received_one(Signal::Write(bytes), line);
            lemma_received_one(Signal::Flush, line);
            lemma_received_concat(seq![Signal::Write(bytes)], seq![Signal::Flush], line);
            assert(seq![Signal::Write(bytes)] + seq![Signal::Flush] =~= write_trace(mode, bytes));
            assert(tagged(bytes, line) + Seq::<(Line, u8)>::empty() =~= tagged(bytes, line));
        },
        TransferMode::Chunked(ceiling) => {
            lemma_chunked_received(bytes, ceiling as nat, line);
        },
    }
}

/// The controller takes a command as exactly one byte, the opcode, under the
/// command state, wherever the select line stood before; afterwards the line
/// is in data state.
pub proof fn lemma_cmd_received(mode: TransferMode, command: u8, line: Line)
    requires
        mode.valid(),
    ensures
        received(cmd_trace(mode, command), line) == seq![(Line::Command, command)],
        line_after(cmd_trace(mode, command), line) == Line::Data,
{
    let open = seq![Signal::SelectCommand];
    let body = write_trace(mode, seq![command]);
    let close = seq![Signal::SelectData];
    lemma_received_one(Signal::SelectCommand, line);
    lemma_received_one(Signal::SelectData, Line::Command);
    lemma_write_received(mode, seq![command], Line::Command);
    lemma_received_concat(open, body, line);
    lemma_received_concat(open + body, close, line);
    assert(tagged(seq![command], Line::Command) =~= seq![(Line::Command, command)]);
    assert(received(cmd_trace(mode, command), line) =~= seq![(Line::Command, command)]);
}

/// The controller takes a data transfer as its bytes, in order, all under the
/// data state, wherever the select line stood before; afterwards the line is
/// in data state.
pub proof fn lemma_data_received(mode: TransferMode, bytes: Seq<u8>, line: Line)
    requires
        mode.valid(),
    ensures
        received(data_trace(mode, bytes), line) == tagged(bytes, Line::Data),
        line_after(data_trace(mode, bytes), line) == Line::Data,
{
    let open = seq![Signal::SelectData];
    let body = write_trace(mode, bytes);
    let close = seq![Signal::SelectData];
    lemma_received_one(Signal::SelectData, line);
    lemma_received_one(Signal::SelectData, Line::Data);
    lemma_write_received(mode, bytes, Line::Data);
    lemma_received_concat(open, body, line);
    lemma_received_concat(open + body, close, line);
    assert(received(data_trace(mode, bytes), line) =~= tagged(bytes, Line::Data));
}

/// Framing of a command with data: the opcode crosses under the command
/// state before any payload byte does, and every payload byte crosses under
/// the data state, in order. Nothing else crosses.
pub proof fn lemma_cmd_with_data_received(
    mode: TransferMode,
    command: u8,
    bytes: Seq<u8>,
    line: Line,
)
    requires
        mode.valid(),
    ensures
        received(cmd_with_data_trace(mode, command, bytes), line) == seq![(Line::Command, command)]
            + tagged(bytes, Line::Data),
        line_after(cmd_with_data_trace(mode, command, bytes), line) == Line::Data,
{
    lemma_cmd_received(mode, command, line);
    lemma_data_received(mode, bytes, Line::Data);
    lemma_received_concat(cmd_trace(mode, command), data_trace(mode, bytes), line);
}

/// Repeated logical writes of one byte deliver that byte `count` times under
/// the select state they started with.
pub proof fn lemma_repeat_received(mode: TransferMode, value: u8, count: nat, line: Line)
    requires
        mode.valid(),
    ensures
        received(repeat(write_trace(mode, seq![value]), count), line) == Seq::new(
            count,
            |i: int| (line, value),
        ),
        line_after(repeat(write_trace(mode, seq![value]), count), line) == line,
    decreases count,
{
    let unit = write_trace(mode, seq![value]);
    if count == 0 {
        assert(received(repeat(unit, count), line) =~= Seq::new(count, |i: int| (line, value)));
    } else {
        lemma_write_received(mode, seq![value], line);
        lemma_repeat_received(mode, value, (count - 1) as nat, line);
        lemma_received_concat(unit, repeat(unit, (count - 1) as nat), line);
        assert(tagged(seq![value], line) + Seq::new((count - 1) as nat, |i: int| (line, value))
            =~= Seq::new(count, |i: int| (line, value)));
    }
}

/// A fill delivers the byte `count` times, all under the data state, and
/// nothing else.
pub proof fn lemma_data_x_times_received(mode: TransferMode, value: u8, count: nat, line: Line)
    requires
        mode.valid(),
    ensures
        received(data_x_times_trace(mode, value, count), line) == Seq::new(
            count,
            |i: int| (Line::Data, value),
        ),
        line_after(data_x_times_trace(mode, value, count), line) == Line::Data,
{
    lemma_received_one(Signal::SelectData, line);
    lemma_repeat_received(mode, value, count, Line::Data);
    lemma_received_concat(
        seq![Signal::SelectData],
        repeat(write_trace(mode, seq![value]), count),
        line,
    );
    assert(received(data_x_times_trace(mode, value, count), line) =~= Seq::new(
        count,
        |i: int| (Line::Data, value),
    ));
}

/// The pieces that carry bytes across are nothing but bus calls.
pub proof fn lemma_chunked_is_bus_calls(bytes: Seq<u8>, ceiling: nat)
    ensures
        all_bus_calls(chunked(bytes, ceiling)),
    decreases bytes.len(),
{
    if bytes.len() > 0 && ceiling > 0 {
        let n = if bytes.len() <= ceiling {
            bytes.len() as int
        } else {
            ceiling as int
        };
        let head = seq![Signal::Write(bytes.take(n))];
        let tail = chunked(bytes.skip(n), ceiling);
        lemma_chunked_is_bus_calls(bytes.skip(n), ceiling);
        assert forall|i: int| 0 <= i < (head + tail).len() implies is_bus_call(
            #[trigger] (head + tail)[i],
        ) by {
            if i >= 1 {
                assert((head + tail)[i] == tail[i - 1]);
            }
        }
    }
}

/// A logical write is nothing but bus calls.
pub proof fn lemma_write_is_bus_calls(mode: TransferMode, bytes: Seq<u8>)
    ensures
        all_bus_calls(write_trace(mode, bytes)),
{
    if let TransferMode::Chunked(ceiling) = mode {
        lemma_chunked_is_bus_calls(bytes, ceiling as nat);
    }
}

/// When the bus fails on any call of a command or a data transfer, the calls
/// that remain of it are dropped and the select line is still put into its
/// data state, as at the end of a transfer that succeeds. Nothing that was
/// recorded after the transfer is carried out.
pub proof fn lemma_framed_write_failure(
    mode: TransferMode,
    bytes: Seq<u8>,
    at: int,
    rest: Seq<Signal>,
)
    requires
        0 <= at < write_trace(mode, bytes).len(),
    ensures
        recovery(write_trace(mode, bytes).skip(at) + seq![Signal::SelectData] + rest) == seq![
            Signal::SelectData,
        ],
{
    let calls = write_trace(mode, bytes);
    let later = calls.skip(at + 1);
    lemma_write_is_bus_calls(mode, bytes);
    assert forall|i: int| 0 <= i < later.len() implies is_bus_call(#[trigger] later[i]) by {
        assert(later[i] == calls[at + 1 + i]);
    }
    assert(seq![calls[at]] + later =~= calls.skip(at));
    lemma_recovery_framed(calls[at], later, rest);
}

/// When the bus fails on any call of a fill, the calls that remain of it are
/// dropped and nothing more is done, provided that what was recorded after
/// the fill, if anything, does not begin with a turn of the select line to
/// its data state or with a bus call.
pub proof fn lemma_fill_failure(
    mode: TransferMode,
    value: u8,
    count: nat,
    at: int,
    rest: Seq<Signal>,
)
    requires
        mode.valid(),
        0 <= at < repeat(write_trace(mode, seq![value]), count).len(),
        rest.len() > 0 ==> !is_bus_call(rest[0]) && rest[0] != Signal::SelectData,
    ensures
        recovery(repeat(write_trace(mode, seq![value]), count).skip(at) + rest) == Seq::<
            Signal,
        >::empty(),
{
    let calls = repeat(write_trace(mode, seq![value]), count);
    let later = calls.skip(at + 1);
    lemma_write_one_byte(mode, value);
    lemma_repeat_is_bus_calls(seq![value], mode is Whole, count);
    assert forall|i: int| 0 <= i < later.len() implies is_bus_call(#[trigger] later[i]) by {
        assert(later[i] == calls[at + 1 + i]);
    }
    assert(seq![calls[at]] + later =~= calls.skip(at));
    lemma_recovery_unframed(calls[at], later, rest);
}

/// The framing layer: it turns commands and data into line operations and
/// records them into a script.
#[derive(Clone, Copy, Debug, PartialEq, Eq)]
pub struct DisplayInterface {
    mode: TransferMode,
}

impl DisplayInterface {
    #[verifier::type_invariant]
    spec fn inv(self) -> bool {
        self.mode.valid()
    }

    /// The transfer mode this interface frames for.
    pub closed spec fn mode(&self) -> TransferMode {
        self.mode
    }

    /// An interface for a bus with the given transfer mode.
    pub fn new(mode: TransferMode) -> (interface: DisplayInterface)
        requires
            mode.valid(),
        ensures
            interface.mode() == mode,
    {
        DisplayInterface { mode }
    }

    /// The transfer mode this interface frames for.
    pub fn transfer_mode(&self) -> (mode: TransferMode)
        ensures
            mode == self.mode(),
            mode.valid(),
    {
        proof {
            use_type_invariant(self);
        }
        self.mode
    }

    /// Records a command: the opcode, sent under the command state.
    pub fn cmd<'a>(&self, script: &mut Script<'a>, command: u8)
        ensures
            final(script)@ == old(script)@ + cmd_trace(self.mode(), command),
            final(script).entries() == old(script).entries() + cmd_entries(self.mode()),
    {
        let opcode: Vec<u8> = vec![command];
        assert(opcode@ =~= seq![command]);
        script.push(Step::SelectCommand);
        self.write(script, Payload::Inline(opcode));
        script.push(Step::SelectData);
        assert(script@ =~= old(script)@ + cmd_trace(self.mode(), command));
    }

    /// Records a data transfer: the bytes, sent under the data state.
    pub fn data<'a>(&self, script: &mut Script<'a>, data: Payload<'a>)
        ensures
            final(script)@ == old(script)@ + data_trace(self.mode(), data@),
            final(script).entries() == old(script).entries() + data_entries(
                self.mode(),
                data@.len(),
            ),
    {
        script.push(Step::SelectData);
        self.write(script, data);
        script.push(Step::SelectData);
        assert(script@ =~= old(script)@ + data_trace(self.mode(), data@));
    }

    /// Records a command and the data that belongs to it.
    pub fn cmd_with_data<'a>(&self, script: &mut Script<'a>, command: u8, data: Payload<'a>)
        ensures
            final(script)@ == old(script)@ + cmd_with_data_trace(self.mode(), command, data@),
            final(script).entries() == old(script).entries() + cmd_with_data_entries(
                self.mode(),
                data@.len(),
            ),
    {
        self.cmd(script, command);
        self.data(script, data);
        assert(script@ =~= old(script)@ + cmd_with_data_trace(self.mode(), command, data@));
    }

    /// Records `repetitions` writes of the one byte `val` under the data
    /// state. The script grows by two entries, however many repetitions.
    pub fn data_x_times<'a>(&self, script: &mut Script<'a>, val: u8, repetitions: u32)
        ensures
            final(script)@ == old(script)@ + data_x_times_trace(
                self.mode(),
                val,
                repetitions as nat,
            ),
            final(script).entries() == old(script).entries() + data_x_times_entries(),
    {
        proof {
            use_type_invariant(self);
            lemma_write_one_byte(self.mode, val);
        }
        let flush = match self.mode {
            TransferMode::Whole => true,
            TransferMode::Chunked(_) => false,
        };
        let pattern: Vec<u8> = vec![val];
        assert(pattern@ =~= seq![val]);
        script.push(Step::SelectData);
        script.push(Step::Fill { pattern: Payload::Inline(pattern), count: repetitions, flush });
        assert(script@ =~= old(script)@ + data_x_times_trace(
            self.mode(),
            val,
            repetitions as nat,
        ));
    }

    /// Records a wait for the busy line to read low.
    pub fn wait_until_idle<'a>(&self, script: &mut Script<'a>)
        ensures
            final(script)@ == old(script)@ + seq![Signal::AwaitIdle],
            final(script).entries() == old(script).entries() + 1,
    {
        script.push(Step::AwaitIdle);
    }

    /// Records the hardware reset pulse.
    pub fn reset<'a>(&self, script: &mut Script<'a>)
        ensures
            final(script)@ == old(script)@ + reset_trace(),
            final(script).entries() == old(script).entries() + 4,
    {
        script.push(Step::ResetLow);
        script.push(Step::DelayMs(RESET_DELAY_MS));
        script.push(Step::ResetHigh);
        script.push(Step::DelayMs(RESET_DELAY_MS));
        assert(script@ =~= old(script)@ + reset_trace());
    }

    /// Records one logical write: the bus calls that carry `data` across in
    /// this interface's transfer mode.
    pub fn write<'a>(&self, script: &mut Script<'a>, data: Payload<'a>)
        ensures
            final(script)@ == old(script)@ + write_trace(self.mode(), data@),
            final(script).entries() == old(script).entries() + write_entries(
                self.mode(),
                data@.len(),
            ),
    {
        proof {
            use_type_invariant(self);
        }
        match self.mode {
            TransferMode::Whole => {
                let ghost bytes = data@;
                script.push(Step::Write(data));
                script.push(Step::Flush);
                assert(script@ =~= old(script)@ + write_trace(self.mode(), bytes));
            },
            TransferMode::Chunked(ceiling) => {
                let ghost before = script@;
                let ghost stored = script.entries();
                let n = data.len();
                let mut from: usize = 0;
                assert(data@.skip(0) =~= data@);
                while from < n
                    invariant
                        from <= n,
                        n == data@.len(),
                        ceiling > 0,
                        script@ + chunked(data@.skip(from as int), ceiling as nat) == before
                            + chunked(data@, ceiling as nat),
                        script.entries() + chunk_count((n - from) as nat, ceiling as nat)
                            == stored + chunk_count(n as nat, ceiling as nat),
                    decreases n - from,
                {
                    let to = if n - from > ceiling {
                        from + ceiling
                    } else {
                        n
                    };
                    let ghost rest = data@.skip(from as int);
                    let ghost recorded = script@;
                    proof {
                        assert(rest.take(to - from) =~= data@.subrange(from as int, to as int));
                        assert(rest.skip(to - from) =~= data@.skip(to as int));
                    }
                    script.push(Step::Write(data.slice(from, to)));
                    assert(script@ + chunked(data@.skip(to as int), ceiling as nat) =~= recorded
                        + chunked(rest, ceiling as nat));
                    from = to;
                }
                assert(data@.skip(n as int) =~= Seq::<u8>::empty());
                assert(script@ =~= before + chunked(data@, ceiling as nat));
            },
        }
    }
}

} // verus!
