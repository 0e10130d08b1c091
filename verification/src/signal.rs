//! The vocabulary of the link between host and controller.
use vstd::prelude::*;

verus! {

/// One elementary operation on the lines between host and controller, as a
/// mathematical value. Scripts and transactions are described by sequences
/// of these.
pub enum Signal {
    /// Drive the data/command select line low: what follows is a command.
    SelectCommand,
    /// Drive the data/command select line high: what follows is data.
    SelectData,
    /// Drive the reset line low.
    ResetLow,
    /// Drive the reset line high.
    ResetHigh,
    /// Let the given number of milliseconds pass.
    DelayMs(u32),
    /// Wait until the busy line reads low.
    AwaitIdle,
    /// Hand these bytes to the bus in one write call.
    Write(Seq<u8>),
    /// Flush the bus.
    Flush,
}

/// Bytes bound for the bus: either a short register payload that the script
/// owns, or a span of a frame buffer that stays with the caller.
#[derive(Debug, PartialEq, Eq)]
pub enum Payload<'a> {
    Inline(Vec<u8>),
    Frame(&'a [u8]),
}

impl<'a> View for Payload<'a> {
    type V = Seq<u8>;

    open spec fn view(&self) -> Seq<u8> {
        match self {
            Payload::Inline(bytes) => bytes@,
            Payload::Frame(bytes) => bytes@,
        }
    }
}

impl<'a> Payload<'a> {
    /// The bytes as a slice.
    pub fn as_slice(&self) -> (bytes: &[u8])
        ensures
            bytes@ == self@,
    {
        match self {
            Payload::Inline(bytes) => bytes.as_slice(),
            Payload::Frame(bytes) => bytes,
        }
    }

    /// Number of bytes.
    pub fn len(&self) -> (n: usize)
        ensures
            n == self@.len(),
    {
        match self {
            Payload::Inline(bytes) => bytes.len(),
            Payload::Frame(bytes) => bytes.len(),
        }
    }

    /// The bytes from `from` up to, not including, `to`. A span of a frame
    /// buffer stays a span of it; inline bytes are copied.
    pub fn slice(&self, from: usize, to: usize) -> (part: Payload<'a>)
        requires
            from <= to <= self@.len(),
        ensures
            part@ == self@.subrange(from as int, to as int),
    {
        match self {
            Payload::Inline(bytes) => Payload::Inline(
                vstd::slice::slice_to_vec(vstd::slice::slice_subrange(bytes.as_slice(), from, to)),
            ),
            Payload::Frame(bytes) => Payload::Frame(vstd::slice::slice_subrange(bytes, from, to)),
        }
    }
}

} // verus!

verus! {

/// State of the data/command select line.
#[derive(Clone, Copy, Debug, PartialEq, Eq, Structural)]
pub enum Line {
    /// Low: the controller takes the next byte as a command opcode.
    Command,
    /// High: the controller takes the next byte as data.
    Data,
}

/// The bytes, each marked with the state of the select line it travels under.
pub open spec fn tagged(bytes: Seq<u8>, line: Line) -> Seq<(Line, u8)> {
    Seq::new(bytes.len(), |i: int| (line, bytes[i]))
}

/// What the controller receives from one line operation while the select
/// line is in state `line`.
pub open spec fn heard(signal: Signal, line: Line) -> Seq<(Line, u8)> {
    match signal {
        Signal::Write(bytes) => tagged(bytes, line),
        _ => Seq::empty(),
    }
}

/// The state of the select line after one line operation.
pub open spec fn turned(signal: Signal, line: Line) -> Line {
    match signal {
        Signal::SelectCommand => Line::Command,
        Signal::SelectData => Line::Data,
        _ => line,
    }
}

/// Everything the controller receives from a sequence of line operations
/// that starts with the select line in state `line`: each byte that crosses
/// the bus, with the state of the select line at that moment. How the bytes
/// were split into bus calls does not show.
pub open spec fn received(trace: Seq<Signal>, line: Line) -> Seq<(Line, u8)>
    decreases trace.len(),
{
    if trace.len() == 0 {
        Seq::empty()
    } else {
        heard(trace[0], line) + received(trace.skip(1), turned(trace[0], line))
    }
}

/// The state of the select line after a sequence of line operations that
/// starts with it in state `line`.
pub open spec fn line_after(trace: Seq<Signal>, line: Line) -> Line
    decreases trace.len(),
{
    if trace.len() == 0 {
        line
    } else {
        line_after(trace.skip(1), turned(trace[0], line))
    }
}

/// A single line operation is received as `heard` says and turns the select
/// line as `turned` says.
pub proof fn lemma_received_one(signal: Signal, line: Line)
    ensures
        received(seq![signal], line) == heard(signal, line),
        line_after(seq![signal], line) == turned(signal, line),
{
    let one = seq![signal];
    assert(one.skip(1) =~= Seq::<Signal>::empty());
    assert(received(one.skip(1), turned(signal, line)) =~= Seq::<(Line, u8)>::empty());
    assert(line_after(one.skip(1), turned(signal, line)) == turned(signal, line));
    assert(received(one, line) =~= heard(signal, line));
}

/// What is received from two sequences in a row is what is received from the
/// first, then what is received from the second with the select line as the
/// first left it.
pub proof fn lemma_received_concat(first: Seq<Signal>, second: Seq<Signal>, line: Line)
    ensures
        received(first + second, line) == received(first, line) + received(
            second,
            line_after(first, line),
        ),
        line_after(first + second, line) == line_after(second, line_after(first, line)),
    decreases first.len(),
{
    if first.len() == 0 {
        assert(first + second =~= second);
        assert(received(first, line) + received(second, line) =~= received(second, line));
    } else {
        let next = turned(first[0], line);
        assert((first + second).skip(1) =~= first.skip(1) + second);
        lemma_received_concat(first.skip(1), second, next);
        assert(received(first + second, line) =~= received(first, line) + received(
            second,
            line_after(first, line),
        ));
    }
}

/// Marking bytes with a line state goes piece by piece.
pub proof fn lemma_tagged_concat(first: Seq<u8>, second: Seq<u8>, line: Line)
    ensures
        tagged(first + second, line) == tagged(first, line) + tagged(second, line),
{
    assert(tagged(first + second, line) =~= tagged(first, line) + tagged(second, line));
}

} // verus!
