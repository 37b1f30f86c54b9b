use vstd::prelude::*;

use crate::program::{Program, Statement};
use crate::tape::{in_reach, Tape, TapeModel};

verus! {

/// What the driver of a machine has to do after a step.
#[derive(PartialEq, Eq, Structural, Debug, Clone, Copy)]
pub enum Action {
    /// Nothing: the machine can step again.
    Continue,
    /// Emit the byte to the output sink.
    Output(u8),
    /// The machine waits at an input instruction for a byte (see `feed`).
    Input,
    /// The program has finished.
    Halt,
}

/// The abstract state of a run: the tape, and the position reached in each
/// enclosing sequence, outermost first. Every position but the last points
/// at the loop whose body the next position runs in.
#[verifier::ext_equal]
pub struct Config {
    pub tape: TapeModel,
    pub frames: Seq<usize>,
}

/// The sequence that runs at depth `d`: the program itself at depth zero,
/// else the body of the loop that the position at depth `d - 1` points at.
pub open spec fn body_at(program: Seq<Statement>, frames: Seq<usize>, d: nat) -> Seq<Statement>
    decreases d,
{
    if d == 0 {
        program
    } else {
        let outer = body_at(program, frames, (d - 1) as nat);
        match outer[frames[d - 1] as int] {
            Statement::Loop(body) => body@,
            _ => Seq::empty(),
        }
    }
}

/// The sequence that the innermost position runs in.
pub open spec fn current_body(program: Seq<Statement>, frames: Seq<usize>) -> Seq<Statement> {
    body_at(program, frames, (frames.len() - 1) as nat)
}

/// Every outer position points at a loop; the innermost one lies within its
/// sequence or just past its end.
pub open spec fn frames_valid(program: Seq<Statement>, frames: Seq<usize>) -> bool {
    &&& frames.len() >= 1
    &&& forall|d: int|
        0 <= d < frames.len() - 1 ==> {
            &&& frames[d] < body_at(program, frames, d as nat).len()
            &&& body_at(program, frames, d as nat)[frames[d] as int] is Loop
        }
    &&& frames.last() <= current_body(program, frames).len()
}

/// The configuration in which a run starts: an empty tape, at the first
/// statement of the program.
pub open spec fn start(tape: TapeModel) -> Config {
    Config { tape, frames: seq![0usize] }
}

/// The frames once the innermost position has moved past its statement.
pub open spec fn moved_on(frames: Seq<usize>) -> Seq<usize> {
    frames.update(frames.len() - 1, (frames.last() + 1) as usize)
}

/// One step of a run. At the end of the program the run halts; at the end
/// of a loop body control returns to the loop, which tests its cell again.
/// Otherwise the statement at the innermost position runs: moves change the
/// cursor, updates change the cell with 8-bit wraparound, output emits the
/// cell, input waits for a byte, and a loop is skipped when its cell is zero
/// and entered otherwise.
pub open spec fn next(program: Seq<Statement>, c: Config) -> (Config, Action) {
    let body = current_body(program, c.frames);
    let p = c.frames.last() as int;
    if p >= body.len() {
        if c.frames.len() == 1 {
            (c, Action::Halt)
        } else {
            (Config { tape: c.tape, frames: c.frames.drop_last() }, Action::Continue)
        }
    } else {
        let on = moved_on(c.frames);
        match body[p] {
            Statement::IncrementPointer => (Config { tape: c.tape.moved_by(1), frames: on }, Action::Continue),
            Statement::DecrementPointer => (Config { tape: c.tape.moved_by(-1), frames: on }, Action::Continue),
            Statement::IncrementValue => (Config { tape: c.tape.incremented(), frames: on }, Action::Continue),
            Statement::DecrementValue => (Config { tape: c.tape.decremented(), frames: on }, Action::Continue),
            Statement::PutChar => (Config { tape: c.tape, frames: on }, Action::Output(c.tape.current())),
            Statement::GetChar => (c, Action::Input),
            Statement::Loop(_) => if c.tape.current() == 0 {
                (Config { tape: c.tape, frames: on }, Action::Continue)
            } else {
                (Config { tape: c.tape, frames: c.frames.push(0usize) }, Action::Continue)
            },
        }
    }
}

/// Whether the run waits at an input instruction.
pub open spec fn awaits_input(program: Seq<Statement>, c: Config) -> bool {
    let body = current_body(program, c.frames);
    let p = c.frames.last() as int;
    p < body.len() && body[p] is GetChar
}

/// The configuration once a byte is handed to an input instruction: the
/// byte is written to the cursor's cell and the run moves on.
pub open spec fn fed(program: Seq<Statement>, c: Config, byte: u8) -> Config {
    if awaits_input(program, c) {
        Config { tape: c.tape.written(byte), frames: moved_on(c.frames) }
    } else {
        c
    }
}

/// How a bounded run ended.
#[derive(PartialEq, Eq, Structural, Debug, Clone, Copy)]
pub enum Outcome {
    /// The program finished.
    Halted,
    /// An input instruction found no byte left.
    InputExhausted,
    /// The cursor left the addresses that a tape can reach.
    OutOfReach,
    /// The run used up its steps.
    StepLimit,
}

/// The bytes that a run emits and how it ends, with `input` as its input
/// and at most `fuel` steps.
pub open spec fn run(program: Seq<Statement>, c: Config, input: Seq<u8>, fuel: nat) -> (Seq<u8>, Outcome)
    decreases fuel,
{
    if fuel == 0 {
        (Seq::empty(), Outcome::StepLimit)
    } else if !in_reach(c.tape.cursor) {
        (Seq::empty(), Outcome::OutOfReach)
    } else {
        let (c2, action) = next(program, c);
        match action {
            Action::Halt => (Seq::empty(), Outcome::Halted),
            Action::Continue => run(program, c2, input, (fuel - 1) as nat),
            Action::Output(b) => {
                let (rest, outcome) = run(program, c2, input, (fuel - 1) as nat);
                (seq![b] + rest, outcome)
            },
            Action::Input => if input.len() == 0 {
                (Seq::empty(), Outcome::InputExhausted)
            } else {
                run(program, fed(program, c, input[0]), input.drop_first(), (fuel - 1) as nat)
            },
        }
    }
}

/// The statement at the innermost position, if it is within its sequence.
pub open spec fn at(program: Seq<Statement>, c: Config) -> Option<Statement> {
    let body = current_body(program, c.frames);
    let p = c.frames.last() as int;
    if 0 <= p < body.len() {
        Some(body[p])
    } else {
        None
    }
}

/// A loop whose cell is zero runs its body no time: the step moves past it
/// without entering, and leaves the tape as it was.
pub proof fn law_loop_skipped_on_zero(program: Seq<Statement>, c: Config)
    requires
        frames_valid(program, c.frames),
        at(program, c) matches Some(s) && s is Loop,
        c.tape.current() == 0,
    ensures
        next(program, c).1 == Action::Continue,
        next(program, c).0.tape == c.tape,
        next(program, c).0.frames == moved_on(c.frames),
        next(program, c).0.frames.len() == c.frames.len(),
{
}

/// Output changes nothing on the tape, so an output instruction run again
/// with no change in between emits the same byte again.
pub proof fn law_output_repeatable(program: Seq<Statement>, c: Config, again: Config)
    requires
        at(program, c) == Some(Statement::PutChar),
        at(program, again) == Some(Statement::PutChar),
        again.tape == next(program, c).0.tape,
    ensures
        next(program, c).1 == Action::Output(c.tape.current()),
        next(program, c).0.tape == c.tape,
        next(program, again).1 == next(program, c).1,
{
}

/// Whether the next step reads or writes the cursor's cell: a cell update,
/// an output, or the test of a loop. Such a step makes the cell's slot in
/// the tape's buffer first; any other step leaves the buffer's shape alone.
pub open spec fn touches_cell(program: Seq<Statement>, c: Config) -> bool {
    match at(program, c) {
        Some(s) => s is IncrementValue || s is DecrementValue || s is PutChar || s is Loop,
        None => false,
    }
}

/// The bodies of the first `n` depths depend only on the positions before
/// them, so two frame stacks that agree there run the same sequences.
proof fn lemma_same_bodies(program: Seq<Statement>, a: Seq<usize>, b: Seq<usize>, n: int)
    requires
        0 <= n <= a.len(),
        n <= b.len(),
        forall|k: int| 0 <= k < n - 1 ==> a[k] == b[k],
    ensures
        forall|d: int| 0 <= d < n ==> #[trigger] body_at(program, a, d as nat) == body_at(program, b, d as nat),
{
    assert forall|d: int| 0 <= d < n implies #[trigger] body_at(program, a, d as nat) == body_at(program, b, d as nat) by {
        lemma_body_at_prefix(program, a, b, d as nat);
    }
}

proof fn lemma_body_at_prefix(program: Seq<Statement>, frames: Seq<usize>, other: Seq<usize>, d: nat)
    requires
        d < frames.len(),
        d < other.len(),
        forall|k: int| 0 <= k < d ==> frames[k] == other[k],
    ensures
        body_at(program, frames, d) == body_at(program, other, d),
    decreases d,
{
    if d > 0 {
        lemma_body_at_prefix(program, frames, other, (d - 1) as nat);
    }
}

/// A program being run against a tape, one statement at a time.
pub struct Machine<'a> {
    program: &'a Program,
    tape: Tape,
    frames: Vec<usize>,
}

impl<'a> View for Machine<'a> {
    type V = Config;

    closed spec fn view(&self) -> Config {
        Config { tape: self.tape@, frames: self.frames@ }
    }
}

impl<'a> Machine<'a> {
    pub closed spec fn code(&self) -> Seq<Statement> {
        self.program@
    }

    /// The tape that the machine runs on.
    pub closed spec fn spec_tape(&self) -> Tape {
        self.tape
    }

    pub open spec fn wf(&self) -> bool {
        &&& self.spec_tape().wf()
        &&& self@.tape == self.spec_tape()@
        &&& frames_valid(self.code(), self@.frames)
    }

    /// A machine at the start of `program`, on an empty tape.
    pub fn new(program: &'a Program) -> (r: Machine<'a>)
        ensures
            r.wf(),
            r.code() == program@,
            r@ == start(TapeModel::empty()),
            r.spec_tape().spec_storage_len() == 0,
            r.spec_tape().spec_origin_offset() == 0,
    {
        Self::with_tape(program, Tape::new())
    }

    /// A machine at the start of `program`, on the given tape.
    pub fn with_tape(program: &'a Program, tape: Tape) -> (r: Machine<'a>)
        requires
            tape.wf(),
        ensures
            r.wf(),
            r.code() == program@,
            r@ == start(tape@),
            r.spec_tape() == tape,
    {
        let mut frames: Vec<usize> = Vec::new();
        frames.push(0);
        let r = Machine { program, tape, frames };
        assert(r@ =~= start(tape@));
        r
    }

    pub fn tape(&self) -> (r: &Tape)
        ensures
            *r == self.spec_tape(),
    {
        &self.tape
    }

    /// Ends the run, handing back its tape.
    pub fn into_tape(self) -> (r: Tape)
        requires
            self.wf(),
        ensures
            r == self.spec_tape(),
    {
        self.tape
    }

    /// How many sequences the run is inside: one at the top level, one more
    /// in each loop body.
    pub fn depth(&self) -> (r: usize)
        ensures
            r == self@.frames.len(),
    {
        self.frames.len()
    }

    /// Whether the machine may step: its cursor lies within reach.
    pub fn can_step(&self) -> (r: bool)
        requires
            self.wf(),
        ensures
            r == in_reach(self@.tape.cursor),
    {
        self.tape.is_accessible()
    }

    /// The sequence that the innermost position runs in.
    fn current_block(&self) -> (r: &'a Vec<Statement>)
        requires
            self.wf(),
        ensures
            r@ == current_body(self.code(), self@.frames),
    {
        let program: &'a Program = self.program;
        let mut block: &'a Vec<Statement> = program.statements();
        let last = self.frames.len() - 1;
        let mut d: usize = 0;
        while d < last
            invariant
                self.wf(),
                last == self.frames@.len() - 1,
                d <= last,
                block@ == body_at(self.code(), self@.frames, d as nat),
            decreases last - d,
        {
            let p = self.frames[d];
            match &block[p] {
                Statement::Loop(body) => {
                    block = body;
                },
                _ => {
                    assert(false);
                },
            }
            d = d + 1;
        }
        block
    }

    /// Runs one step, as `next` says. At an input instruction nothing
    /// changes: the byte comes with `feed`.
    pub fn step(&mut self) -> (r: Action)
        requires
            old(self).wf(),
            in_reach(old(self)@.tape.cursor),
        ensures
            final(self).wf(),
            final(self).code() == old(self).code(),
            (final(self)@, r) == next(old(self).code(), old(self)@),
            touches_cell(old(self).code(), old(self)@) ==> final(self).spec_tape().accessed(&old(self).spec_tape()),
            !touches_cell(old(self).code(), old(self)@) ==> {
                &&& final(self).spec_tape().spec_storage_len() == old(self).spec_tape().spec_storage_len()
                &&& final(self).spec_tape().spec_origin_offset() == old(self).spec_tape().spec_origin_offset()
            },
    {
        let ghost program = self.code();
        let ghost c = self@;
        let block = self.current_block();
        let last = self.frames.len() - 1;
        let p = self.frames[last];
        if p >= block.len() {
            if last == 0 {
                return Action::Halt;
            }
            self.frames.pop();
            proof {
                assert(self.frames@ =~= c.frames.drop_last());
                lemma_same_bodies(program, self.frames@, c.frames, self.frames@.len() as int);
                assert(self@ =~= next(program, c).0);
            }
            return Action::Continue;
        }
        let action = match &block[p] {
            Statement::IncrementPointer => {
                self.tape.advance();
                Action::Continue
            },
            Statement::DecrementPointer => {
                self.tape.retreat();
                Action::Continue
            },
            Statement::IncrementValue => {
                self.tape.increment_cell();
                Action::Continue
            },
            Statement::DecrementValue => {
                self.tape.decrement_cell();
                Action::Continue
            },
            Statement::PutChar => Action::Output(self.tape.read()),
            Statement::GetChar => {
                return Action::Input;
            },
            Statement::Loop(_) => {
                if self.tape.read() != 0 {
                    self.frames.push(0);
                    proof {
                        assert(self.frames@ =~= c.frames.push(0usize));
                        lemma_same_bodies(program, self.frames@, c.frames, c.frames.len() as int);
                        assert(self@ =~= next(program, c).0);
                    }
                    return Action::Continue;
                }
                Action::Continue
            },
        };
        self.frames.set(last, p + 1);
        proof {
            assert(self.frames@ =~= moved_on(c.frames));
            lemma_same_bodies(program, self.frames@, c.frames, self.frames@.len() as int);
            assert(self@ =~= next(program, c).0);
        }
        action
    }

    /// Hands a byte to the input instruction that the machine waits at, as
    /// `fed` says; reports whether it waited at one.
    pub fn feed(&mut self, byte: u8) -> (r: bool)
        requires
            old(self).wf(),
            in_reach(old(self)@.tape.cursor),
        ensures
            final(self).wf(),
            final(self).code() == old(self).code(),
            r == awaits_input(old(self).code(), old(self)@),
            final(self)@ == fed(old(self).code(), old(self)@, byte),
            r ==> final(self).spec_tape().accessed(&old(self).spec_tape()),
            !r ==> final(self).spec_tape() == old(self).spec_tape(),
    {
        let ghost program = self.code();
        let ghost c = self@;
        let block = self.current_block();
        let last = self.frames.len() - 1;
        let p = self.frames[last];
        if p < block.len() {
            if let Statement::GetChar = &block[p] {
                self.tape.write(byte);
                self.frames.set(last, p + 1);
                proof {
                    assert(self.frames@ =~= moved_on(c.frames));
                    lemma_same_bodies(program, self.frames@, c.frames, self.frames@.len() as int);
                    assert(self@ =~= fed(program, c, byte));
                }
                return true;
            }
        }
        false
    }
}

/// Runs `program` on an empty tape for at most `max_steps` steps, taking
/// input bytes from `input` in order; returns the bytes emitted and how the
/// run ended.
pub fn interpret(program: &Program, input: &Vec<u8>, max_steps: usize) -> (r: (Vec<u8>, Outcome))
    ensures
        (r.0@, r.1) == run(program@, start(TapeModel::empty()), input@, max_steps as nat),
{
    let mut machine = Machine::new(program);
    let mut output: Vec<u8> = Vec::new();
    let mut consumed: usize = 0;
    let mut fuel: usize = max_steps;
    let ghost total = run(program@, start(TapeModel::empty()), input@, max_steps as nat);
    proof {
        assert(input@.subrange(0, input@.len() as int) =~= input@);
        assert(output@ + total.0 =~= total.0);
    }
    loop
        invariant
            total == run(program@, start(TapeModel::empty()), input@, max_steps as nat),
            machine.wf(),
            machine.code() == program@,
            consumed <= input@.len(),
            ({
                let rest = run(program@, machine@, input@.subrange(consumed as int, input@.len() as int), fuel as nat);
                total == (output@ + rest.0, rest.1)
            }),
        decreases fuel,
    {
        let ghost pending = input@.subrange(consumed as int, input@.len() as int);
        if fuel == 0 {
            assert(output@ + Seq::<u8>::empty() =~= output@);
            return (output, Outcome::StepLimit);
        }
        if !machine.can_step() {
            assert(output@ + Seq::<u8>::empty() =~= output@);
            return (output, Outcome::OutOfReach);
        }
        let action = machine.step();
        fuel = fuel - 1;
        match action {
            Action::Halt => {
                assert(output@ + Seq::<u8>::empty() =~= output@);
                return (output, Outcome::Halted);
            },
            Action::Continue => {},
            Action::Output(b) => {
                let ghost before = output@;
                output.push(b);
                proof {
                    let rest = run(program@, machine@, pending, fuel as nat);
                    assert(before + (seq![b] + rest.0) =~= output@ + rest.0);
                }
            },
            Action::Input => {
                if consumed == input.len() {
                    assert(output@ + Seq::<u8>::empty() =~= output@);
                    return (output, Outcome::InputExhausted);
                }
                machine.feed(input[consumed]);
                consumed = consumed + 1;
                proof {
                    assert(pending.drop_first() =~= input@.subrange(consumed as int, input@.len() as int));
                }
            },
        }
    }
}

} // verus!
