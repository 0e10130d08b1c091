//! Scripts: what a driver operation does on the lines, recorded before
//! anything is done.
use crate::signal::{Payload, Signal};
use crate::Error;
use vstd::prelude::*;

verus! {

/// One entry of a script.
#[derive(Debug, PartialEq, Eq)]
pub enum Step<'a> {
    /// Drive the data/command select line low.
    SelectCommand,
    /// Drive the data/command select line high.
    SelectData,
    /// Drive the reset line low.
    ResetLow,
    /// Drive the reset line high.
    ResetHigh,
    /// Let the given number of milliseconds pass.
    DelayMs(u32),
    /// Wait until the busy line reads low.
    AwaitIdle,
    /// Hand the payload to the bus in one write call.
    Write(Payload<'a>),
    /// Flush the bus.
    Flush,
    /// Write the pattern `count` times, one bus call each, and flush after
    /// each of them when `flush` is set. The repetitions are produced on
    /// demand, never stored.
    Fill { pattern: Payload<'a>, count: u32, flush: bool },
}

/// One write of `bytes`, with the flush that follows it when `flush` is set.
pub open spec fn burst(bytes: Seq<u8>, flush: bool) -> Seq<Signal> {
    if flush {
        seq![Signal::Write(bytes), Signal::Flush]
    } else {
        seq![Signal::Write(bytes)]
    }
}

/// `unit`, `count` times over.
pub open spec fn repeat(unit: Seq<Signal>, count: nat) -> Seq<Signal>
    decreases count,
{
    if count == 0 {
        Seq::empty()
    } else {
        unit + repeat(unit, (count - 1) as nat)
    }
}

impl<'a> Step<'a> {
    /// The line operations that this entry stands for.
    pub open spec fn signals(self) -> Seq<Signal> {
        match self {
            Step::SelectCommand => seq![Signal::SelectCommand],
            Step::SelectData => seq![Signal::SelectData],
            Step::ResetLow => seq![Signal::ResetLow],
            Step::ResetHigh => seq![Signal::ResetHigh],
            Step::DelayMs(ms) => seq![Signal::DelayMs(ms)],
            Step::AwaitIdle => seq![Signal::AwaitIdle],
            Step::Write(payload) => seq![Signal::Write(payload@)],
            Step::Flush => seq![Signal::Flush],
            Step::Fill { pattern, count, flush } => repeat(burst(pattern@, flush), count as nat),
        }
    }
}

/// The line operations of a list of entries, in order.
pub open spec fn trace_of(steps: Seq<Step>) -> Seq<Signal>
    decreases steps.len(),
{
    if steps.len() == 0 {
        Seq::empty()
    } else {
        steps[0].signals() + trace_of(steps.skip(1))
    }
}

/// Appending an entry appends its line operations.
pub proof fn lemma_trace_push(steps: Seq<Step>, step: Step)
    ensures
        trace_of(steps.push(step)) == trace_of(steps) + step.signals(),
    decreases steps.len(),
{
    if steps.len() == 0 {
        let one = steps.push(step);
        assert(one.skip(1) =~= Seq::<Step>::empty());
        assert(trace_of(one.skip(1)) =~= Seq::<Signal>::empty());
        assert(one[0] == step);
        assert(trace_of(one) =~= step.signals());
        assert(trace_of(steps) =~= Seq::<Signal>::empty());
    } else {
        assert(steps.push(step).skip(1) =~= steps.skip(1).push(step));
        lemma_trace_push(steps.skip(1), step);
        assert(trace_of(steps.push(step)) =~= trace_of(steps) + step.signals());
    }
}

/// The line operations from entry `at` on start with those of entry `at`.
pub proof fn lemma_trace_unfold(steps: Seq<Step>, at: int)
    requires
        0 <= at < steps.len(),
    ensures
        trace_of(steps.skip(at)) == steps[at].signals() + trace_of(steps.skip(at + 1)),
{
    assert(steps.skip(at).skip(1) =~= steps.skip(at + 1));
}

/// A unit repeated `count` times is `count` times as long as the unit.
pub proof fn lemma_repeat_len(unit: Seq<Signal>, count: nat)
    ensures
        repeat(unit, count).len() == count * unit.len(),
    decreases count,
{
    if count > 0 {
        lemma_repeat_len(unit, (count - 1) as nat);
        assert(count * unit.len() == (count - 1) * unit.len() + unit.len()) by (nonlinear_arith);
    } else {
        assert(count * unit.len() == 0) by (nonlinear_arith)
            requires
                count == 0,
        ;
    }
}

/// A recorded sequence of line operations. Its view is the sequence itself,
/// every repetition written out.
#[derive(Debug, PartialEq, Eq)]
pub struct Script<'a> {
    steps: Vec<Step<'a>>,
}

impl<'a> View for Script<'a> {
    type V = Seq<Signal>;

    closed spec fn view(&self) -> Seq<Signal> {
        trace_of(self.steps@)
    }
}

impl<'a> Script<'a> {
    /// Number of stored entries. A fill is one entry, whatever its length.
    pub closed spec fn entries(&self) -> nat {
        self.steps@.len()
    }

    /// The empty script.
    pub fn new() -> (script: Script<'a>)
        ensures
            script@ == Seq::<Signal>::empty(),
            script.entries() == 0,
    {
        Script { steps: Vec::new() }
    }

    /// Appends one entry.
    pub fn push(&mut self, step: Step<'a>)
        ensures
            final(self)@ == old(self)@ + step.signals(),
            final(self).entries() == old(self).entries() + 1,
    {
        proof {
            lemma_trace_push(self.steps@, step);
        }
        self.steps.push(step);
    }

    /// Number of stored entries. A fill is one entry, whatever its length.
    pub fn len(&self) -> (n: usize)
        ensures
            n == self.entries(),
    {
        self.steps.len()
    }
}

/// What was done about one line operation, as reported by whoever did it.
#[derive(Clone, Copy, Debug, PartialEq, Eq, Structural)]
pub enum Outcome {
    /// The line was driven, the delay has passed, or the bus call returned
    /// without error.
    Done,
    /// The bus call returned an error.
    BusError,
    /// The busy line was sampled and read high.
    BusyHigh,
    /// The busy line was sampled and read low.
    BusyLow,
    /// The busy line could not be read.
    BusyUnreadable,
}

/// One line operation to carry out now.
#[derive(Clone, Copy, Debug, PartialEq, Eq)]
pub enum Action<'a> {
    /// Drive the data/command select line low.
    SelectCommand,
    /// Drive the data/command select line high.
    SelectData,
    /// Drive the reset line low.
    ResetLow,
    /// Drive the reset line high.
    ResetHigh,
    /// Let the given number of milliseconds pass.
    DelayMs(u32),
    /// Sample the busy line once and report what it read.
    PollBusy,
    /// Hand these bytes to the bus in one write call.
    Write(&'a [u8]),
    /// Flush the bus.
    Flush,
}

impl<'a> View for Action<'a> {
    type V = Signal;

    open spec fn view(&self) -> Signal {
        match self {
            Action::SelectCommand => Signal::SelectCommand,
            Action::SelectData => Signal::SelectData,
            Action::ResetLow => Signal::ResetLow,
            Action::ResetHigh => Signal::ResetHigh,
            Action::DelayMs(ms) => Signal::DelayMs(*ms),
            Action::PollBusy => Signal::AwaitIdle,
            Action::Write(bytes) => Signal::Write(bytes@),
            Action::Flush => Signal::Flush,
        }
    }
}

/// Where a transaction stands: the line operations still to be carried out,
/// the next one first, and whether the bus has failed.
pub struct Progress {
    pub pending: Seq<Signal>,
    pub failed: bool,
}

/// Whether a line operation is a call into the bus.
pub open spec fn is_bus_call(signal: Signal) -> bool {
    signal is Write || signal is Flush
}

/// Whether every line operation of a sequence is a call into the bus.
pub open spec fn all_bus_calls(trace: Seq<Signal>) -> bool {
    forall|i: int| 0 <= i < trace.len() ==> is_bus_call(#[trigger] trace[i])
}

/// What is left of a sequence once the bus calls at its front are dropped.
pub open spec fn after_bus_calls(trace: Seq<Signal>) -> Seq<Signal>
    decreases trace.len(),
{
    if trace.len() > 0 && is_bus_call(trace[0]) {
        after_bus_calls(trace.skip(1))
    } else {
        trace
    }
}

/// Whether the bus calls at the front of a sequence are followed directly by
/// a turn of the select line to its data state.
pub open spec fn closing_turn(trace: Seq<Signal>) -> bool {
    let next = after_bus_calls(trace);
    next.len() > 0 && next[0] == Signal::SelectData
}

/// What is still to be done when the first of the pending line operations
/// has failed on the bus. The bus calls that follow it belong to the same
/// transfer and are dropped. Where the transfer is framed, that is, where a
/// turn of the select line to its data state comes right after them, that
/// turn is still made; otherwise nothing is.
pub open spec fn recovery(pending: Seq<Signal>) -> Seq<Signal> {
    if closing_turn(pending.skip(1)) {
        seq![Signal::SelectData]
    } else {
        Seq::empty()
    }
}

/// Where a transaction stands once the outcome of its next line operation is
/// known.
///
/// A bus error ends the script: what is left to do is what [`recovery`]
/// says, and the transaction has failed. A busy line that reads high keeps
/// the wait in place; one that reads low, or cannot be read, ends the wait.
/// Every other outcome moves on to the next operation. When nothing is
/// pending, nothing changes.
pub open spec fn advance(before: Progress, outcome: Outcome) -> Progress {
    if before.pending.len() == 0 {
        before
    } else if before.failed {
        Progress { pending: before.pending.skip(1), failed: true }
    } else if outcome == Outcome::BusError {
        Progress { pending: recovery(before.pending), failed: true }
    } else if before.pending[0] == Signal::AwaitIdle && outcome == Outcome::BusyHigh {
        before
    } else {
        Progress { pending: before.pending.skip(1), failed: false }
    }
}

/// Where a transaction stands after a run of outcomes, the first reported
/// first.
pub open spec fn advance_all(before: Progress, outcomes: Seq<Outcome>) -> Progress
    decreases outcomes.len(),
{
    if outcomes.len() == 0 {
        before
    } else {
        advance_all(advance(before, outcomes[0]), outcomes.skip(1))
    }
}

/// As long as every line operation is reported done, a transaction works
/// through its pending operations one by one and never fails.
pub proof fn lemma_advance_done(before: Progress, count: nat)
    requires
        !before.failed,
        count <= before.pending.len(),
    ensures
        advance_all(before, Seq::new(count, |i: int| Outcome::Done)) == (Progress {
            pending: before.pending.skip(count as int),
            failed: false,
        }),
    decreases count,
{
    let outcomes = Seq::new(count, |i: int| Outcome::Done);
    if count == 0 {
        assert(before.pending.skip(0) =~= before.pending);
    } else {
        let next = advance(before, Outcome::Done);
        assert(outcomes.skip(1) =~= Seq::new((count - 1) as nat, |i: int| Outcome::Done));
        lemma_advance_done(next, (count - 1) as nat);
        assert(before.pending.skip(1).skip(count - 1) =~= before.pending.skip(count as int));
    }
}

/// Once the bus has failed, nothing but putting the select line back is ever
/// pending again, whatever is reported afterwards, and the failure stays.
pub proof fn lemma_failure_is_final(before: Progress, outcomes: Seq<Outcome>)
    requires
        before.failed,
        before.pending == seq![Signal::SelectData] || before.pending == Seq::<Signal>::empty(),
    ensures
        advance_all(before, outcomes).failed,
        advance_all(before, outcomes).pending == seq![Signal::SelectData] || advance_all(
            before,
            outcomes,
        ).pending == Seq::<Signal>::empty(),
    decreases outcomes.len(),
{
    if outcomes.len() > 0 {
        let next = advance(before, outcomes[0]);
        if before.pending.len() > 0 {
            assert(before.pending.skip(1) =~= Seq::<Signal>::empty());
        }
        lemma_failure_is_final(next, outcomes.skip(1));
    }
}

/// A bus error reported for a pending line operation of a transaction that
/// has not failed marks it failed and leaves at most one thing to do:
/// putting the select line back.
pub proof fn lemma_bus_error_ends_script(before: Progress)
    requires
        !before.failed,
        before.pending.len() > 0,
    ensures
        advance(before, Outcome::BusError).failed,
        advance(before, Outcome::BusError).pending == seq![Signal::SelectData] || advance(
            before,
            Outcome::BusError,
        ).pending == Seq::<Signal>::empty(),
{
}

/// Bus calls at the front of a sequence do not change what follows the bus
/// calls at its front.
pub proof fn lemma_after_bus_calls_prefix(calls: Seq<Signal>, rest: Seq<Signal>)
    requires
        all_bus_calls(calls),
    ensures
        after_bus_calls(calls + rest) == after_bus_calls(rest),
        closing_turn(calls + rest) == closing_turn(rest),
    decreases calls.len(),
{
    if calls.len() == 0 {
        assert(calls + rest =~= rest);
    } else {
        assert((calls + rest)[0] == calls[0]);
        assert(is_bus_call(calls[0]));
        assert((calls + rest).skip(1) =~= calls.skip(1) + rest);
        assert forall|i: int| 0 <= i < calls.skip(1).len() implies is_bus_call(
            #[trigger] calls.skip(1)[i],
        ) by {
            assert(calls.skip(1)[i] == calls[i + 1]);
        }
        lemma_after_bus_calls_prefix(calls.skip(1), rest);
    }
}

/// A fill is nothing but bus calls.
pub proof fn lemma_repeat_is_bus_calls(bytes: Seq<u8>, flush: bool, count: nat)
    ensures
        all_bus_calls(repeat(burst(bytes, flush), count)),
    decreases count,
{
    if count > 0 {
        let unit = burst(bytes, flush);
        let rest = repeat(unit, (count - 1) as nat);
        lemma_repeat_is_bus_calls(bytes, flush, (count - 1) as nat);
        assert forall|i: int| 0 <= i < (unit + rest).len() implies is_bus_call(
            #[trigger] (unit + rest)[i],
        ) by {
            if i >= unit.len() {
                assert((unit + rest)[i] == rest[i - unit.len()]);
            }
        }
    }
}

/// When a bus call fails that is followed by further bus calls and then by a
/// turn of the select line to its data state, that turn is all that remains.
pub proof fn lemma_recovery_framed(failing: Signal, calls: Seq<Signal>, rest: Seq<Signal>)
    requires
        all_bus_calls(calls),
    ensures
        recovery(seq![failing] + calls + seq![Signal::SelectData] + rest) == seq![
            Signal::SelectData,
        ],
{
    let pending = seq![failing] + calls + seq![Signal::SelectData] + rest;
    let closing = seq![Signal::SelectData] + rest;
    assert(pending.skip(1) =~= calls + closing);
    lemma_after_bus_calls_prefix(calls, closing);
    assert(closing[0] == Signal::SelectData);
}

/// When a bus call fails that is followed by nothing but further bus calls,
/// or by further bus calls and then a line operation other than a turn of
/// the select line to its data state, nothing remains.
pub proof fn lemma_recovery_unframed(failing: Signal, calls: Seq<Signal>, rest: Seq<Signal>)
    requires
        all_bus_calls(calls),
        rest.len() > 0 ==> !is_bus_call(rest[0]) && rest[0] != Signal::SelectData,
    ensures
        recovery(seq![failing] + calls + rest) == Seq::<Signal>::empty(),
{
    let pending = seq![failing] + calls + rest;
    assert(pending.skip(1) =~= calls + rest);
    lemma_after_bus_calls_prefix(calls, rest);
}

/// What is left of an entry that is partly carried out: of a fill, the
/// repetitions from `rep` on, without the write of repetition `rep` when only
/// its flush is still due.
spec fn rest_of(step: Step, rep: u32, flushing: bool) -> Seq<Signal> {
    match step {
        Step::Fill { pattern, count, flush } => if flushing {
            seq![Signal::Flush] + repeat(burst(pattern@, flush), (count - rep - 1) as nat)
        } else {
            repeat(burst(pattern@, flush), (count - rep) as nat)
        },
        _ => step.signals(),
    }
}

/// The first entry from `from` on that stands for at least one line
/// operation, or the number of entries if there is none.
fn seek<'a>(steps: &Vec<Step<'a>>, from: usize) -> (at: usize)
    requires
        from <= steps.len(),
    ensures
        from <= at <= steps.len(),
        trace_of(steps@.skip(at as int)) == trace_of(steps@.skip(from as int)),
        at < steps.len() ==> !(steps[at as int] matches Step::Fill { count, .. } && count == 0),
{
    let mut at: usize = from;
    while at < steps.len()
        invariant
            from <= at <= steps.len(),
            trace_of(steps@.skip(at as int)) == trace_of(steps@.skip(from as int)),
        decreases steps.len() - at,
    {
        let idle = match &steps[at] {
            Step::Fill { count, .. } => *count == 0,
            _ => false,
        };
        if !idle {
            return at;
        }
        proof {
            lemma_trace_unfold(steps@, at as int);
            assert(steps[at as int].signals() =~= Seq::<Signal>::empty());
            assert(trace_of(steps@.skip(at as int)) =~= trace_of(steps@.skip(at + 1)));
        }
        at = at + 1;
    }
    at
}

/// Whether an entry stands for bus calls only.
spec fn is_transfer(step: Step) -> bool {
    step is Write || step is Flush || step is Fill
}

/// An entry that stands for bus calls only stands for nothing else.
proof fn lemma_transfer_is_bus_calls(step: Step)
    requires
        is_transfer(step),
    ensures
        all_bus_calls(step.signals()),
{
    if let Step::Fill { pattern, count, flush } = step {
        lemma_repeat_is_bus_calls(pattern@, flush, count as nat);
    }
}

/// Beyond its first line operation, what is left of an entry is bus calls.
proof fn lemma_rest_beyond_first(step: Step, rep: u32, flushing: bool)
    requires
        step matches Step::Fill { count, .. } ==> rep < count,
    ensures
        rest_of(step, rep, flushing).len() > 0,
        all_bus_calls(rest_of(step, rep, flushing).skip(1)),
{
    if let Step::Fill { pattern, count, flush } = step {
        let unit = burst(pattern@, flush);
        if flushing {
            let later = repeat(unit, (count - rep - 1) as nat);
            lemma_repeat_is_bus_calls(pattern@, flush, (count - rep - 1) as nat);
            assert((seq![Signal::Flush] + later).skip(1) =~= later);
        } else {
            let all = repeat(unit, (count - rep) as nat);
            lemma_repeat_is_bus_calls(pattern@, flush, (count - rep) as nat);
            assert(all.len() > 0);
            assert forall|i: int| 0 <= i < all.skip(1).len() implies is_bus_call(
                #[trigger] all.skip(1)[i],
            ) by {
                assert(all.skip(1)[i] == all[i + 1]);
            }
        }
    }
}

/// Whether, from entry `from` on, the bus calls are followed directly by a
/// turn of the select line to its data state.
fn closes_frame<'a>(steps: &Vec<Step<'a>>, from: usize) -> (closes: bool)
    requires
        from <= steps.len(),
    ensures
        closes == closing_turn(trace_of(steps@.skip(from as int))),
{
    let mut at: usize = from;
    while at < steps.len()
        invariant
            from <= at <= steps.len(),
            closing_turn(trace_of(steps@.skip(at as int))) == closing_turn(
                trace_of(steps@.skip(from as int)),
            ),
        decreases steps.len() - at,
    {
        proof {
            lemma_trace_unfold(steps@, at as int);
        }
        let ghost here = steps[at as int].signals();
        let ghost later = trace_of(steps@.skip(at + 1));
        match &steps[at] {
            Step::Write(_) | Step::Flush | Step::Fill { .. } => {
                proof {
                    lemma_transfer_is_bus_calls(steps[at as int]);
                    lemma_after_bus_calls_prefix(here, later);
                }
            },
            Step::SelectData => {
                assert((here + later)[0] == Signal::SelectData);
                return true;
            },
            _ => {
                assert((here + later)[0] == here[0]);
                return false;
            },
        }
        at = at + 1;
    }
    assert(steps@.skip(at as int) =~= Seq::<Step>::empty());
    false
}

/// A script being carried out. It hands out one line operation at a time
/// and takes back what came of it.
pub struct Transaction<'a> {
    steps: Vec<Step<'a>>,
    /// Index of the entry being carried out.
    at: usize,
    /// Within a fill: how many repetitions are complete.
    rep: u32,
    /// Within a fill: the write of repetition `rep` is done, its flush is due.
    flushing: bool,
    /// The bus has failed.
    failed: bool,
    /// The bus has failed and the select line is still to be put back.
    restoring: bool,
}

impl<'a> View for Transaction<'a> {
    type V = Progress;

    closed spec fn view(&self) -> Progress {
        Progress {
            pending: if self.failed {
                if self.restoring {
                    seq![Signal::SelectData]
                } else {
                    Seq::empty()
                }
            } else if self.at < self.steps.len() {
                rest_of(self.steps[self.at as int], self.rep, self.flushing) + trace_of(
                    self.steps@.skip(self.at + 1),
                )
            } else {
                Seq::empty()
            },
            failed: self.failed,
        }
    }
}

impl<'a> Transaction<'a> {
    #[verifier::type_invariant]
    spec fn inv(self) -> bool {
        &&& self.at <= self.steps.len()
        &&& self.restoring ==> self.failed
        &&& if self.at < self.steps.len() && self.steps[self.at as int] is Fill {
            &&& self.rep < self.steps[self.at as int]->count
            &&& self.flushing ==> self.steps[self.at as int]->flush
        } else {
            &&& self.rep == 0
            &&& !self.flushing
        }
    }

    /// Starts carrying out a script: everything in it is pending.
    pub fn new(script: Script<'a>) -> (transaction: Transaction<'a>)
        ensures
            transaction@ == (Progress { pending: script@, failed: false }),
    {
        let at = seek(&script.steps, 0);
        proof {
            assert(script.steps@.skip(0) =~= script.steps@);
            if at < script.steps.len() {
                lemma_trace_unfold(script.steps@, at as int);
            }
        }
        Transaction {
            steps: script.steps,
            at,
            rep: 0,
            flushing: false,
            failed: false,
            restoring: false,
        }
    }

    /// The line operation to carry out now, or `None` when nothing is left
    /// to do.
    pub fn current(&self) -> (action: Option<Action<'_>>)
        ensures
            action is None <==> self@.pending.len() == 0,
            action matches Some(a) ==> a@ == self@.pending[0],
    {
        proof {
            use_type_invariant(self);
        }
        if self.failed {
            if self.restoring {
                Some(Action::SelectData)
            } else {
                None
            }
        } else if self.at < self.steps.len() {
            let action = match &self.steps[self.at] {
                Step::SelectCommand => Action::SelectCommand,
                Step::SelectData => Action::SelectData,
                Step::ResetLow => Action::ResetLow,
                Step::ResetHigh => Action::ResetHigh,
                Step::DelayMs(ms) => Action::DelayMs(*ms),
                Step::AwaitIdle => Action::PollBusy,
                Step::Write(payload) => Action::Write(payload.as_slice()),
                Step::Flush => Action::Flush,
                Step::Fill { pattern, .. } => {
                    if self.flushing {
                        Action::Flush
                    } else {
                        Action::Write(pattern.as_slice())
                    }
                },
            };
            Some(action)
        } else {
            None
        }
    }

    /// Takes the outcome of the line operation that [`Self::current`] handed
    /// out and moves on accordingly.
    pub fn resolve(&mut self, outcome: Outcome)
        ensures
            final(self)@ == advance(old(self)@, outcome),
    {
        proof {
            use_type_invariant(&*self);
        }
        if self.failed {
            if self.restoring {
                self.restoring = false;
                assert(final(self)@.pending =~= old(self)@.pending.skip(1));
            }
            return ;
        }
        if self.at >= self.steps.len() {
            return ;
        }
        let ghost step = self.steps[self.at as int];
        if let Outcome::BusError = outcome {
            let restoring = closes_frame(&self.steps, self.at + 1);
            proof {
                let rest = rest_of(step, self.rep, self.flushing);
                let later = trace_of(self.steps@.skip(self.at + 1));
                lemma_rest_beyond_first(step, self.rep, self.flushing);
                assert(old(self)@.pending.skip(1) =~= rest.skip(1) + later);
                lemma_after_bus_calls_prefix(rest.skip(1), later);
            }
            self.failed = true;
            self.restoring = restoring;
            return ;
        }
        // `Some(true)`: a fill that flushes; `Some(false)`: one that does not.
        let (waiting, fill, count): (bool, Option<bool>, u32) = match &self.steps[self.at] {
            Step::AwaitIdle => (true, None, 0),
            Step::Fill { count, flush, .. } => (false, Some(*flush), *count),
            _ => (false, None, 0),
        };
        if waiting {
            if let Outcome::BusyHigh = outcome {
                return ;
            }
        }
        match fill {
            Some(flush) => {
                if flush && !self.flushing {
                    self.flushing = true;
                    assert(final(self)@.pending =~= old(self)@.pending.skip(1));
                    return ;
                }
                if self.rep + 1 < count {
                    self.flushing = false;
                    self.rep = self.rep + 1;
                    assert(final(self)@.pending =~= old(self)@.pending.skip(1));
                    return ;
                }
                proof {
                    assert(repeat(burst(step->pattern@, step->flush), 0) =~= Seq::<Signal>::empty());
                }
            },
            None => {},
        }
        let next = seek(&self.steps, self.at + 1);
        proof {
            if next < self.steps.len() {
                lemma_trace_unfold(self.steps@, next as int);
            } else {
                assert(self.steps@.skip(next as int) =~= Seq::<Step>::empty());
            }
        }
        self.flushing = false;
        self.rep = 0;
        self.at = next;
        assert(final(self)@.pending =~= old(self)@.pending.skip(1));
    }

    /// Whether nothing is left to do.
    pub fn is_finished(&self) -> (finished: bool)
        ensures
            finished == (self@.pending.len() == 0),
    {
        self.current().is_none()
    }

    /// How the script ended: `None` while line operations are pending, then
    /// `Ok` if the bus never failed and [`Error::Bus`] if it did.
    pub fn result(&self) -> (result: Option<Result<(), Error>>)
        ensures
            result is None <==> self@.pending.len() > 0,
            result matches Some(r) ==> (r is Err <==> self@.failed),
            result matches Some(Err(e)) ==> e == Error::Bus,
    {
        if self.current().is_some() {
            None
        } else if self.failed {
            Some(Err(Error::Bus))
        } else {
            Some(Ok(()))
        }
    }
}

} // verus!
