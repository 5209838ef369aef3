use vstd::prelude::*;
use vstd::slice::slice_to_vec;
use crate::errors::RunError;
use crate::jit::state::{State, TRANSFER_OK};
use crate::tape::{TapeView, add_wrap, sub_wrap};

verus! {

/// What one step of a machine asks of its surroundings.
#[derive(Clone, Copy, Debug, PartialEq, Eq, Structural)]
pub enum Signal {
    /// The machine moved on by itself.
    Step,
    /// The machine moved on and this byte is to be written.
    Emit(u8),
    /// The machine moved on and used up the input byte it was handed.
    Read,
    /// The program is finished; nothing changed.
    Halt,
    /// The step could not be taken; nothing changed.
    Fault(RunError),
}

/// The meaning of one program position, whatever the program is written in.
/// Jump targets are absolute positions.
pub enum Act {
    Skip,
    Left(int),
    Right(int),
    Add(u8),
    Sub(u8),
    Clear,
    IfZero(int),
    IfNonZero(int),
    Put,
    Get,
    Stop,
}

/// A machine between two steps: the position in the program, and the tape.
pub struct Snapshot {
    pub pc: int,
    pub tape: TapeView,
}

impl Snapshot {
    /// Start of every run: first position, blank tape.
    pub open spec fn start() -> Snapshot {
        Snapshot { pc: 0, tape: TapeView::blank() }
    }

    pub open spec fn wf(self) -> bool {
        self.pc >= 0 && self.tape.wf()
    }

    pub open spec fn at(self, pc: int) -> Snapshot {
        Snapshot { pc, tape: self.tape }
    }
}

/// One step of `a` from state `s`. `next` is the byte that input would
/// deliver now, if there is one.
pub open spec fn act_step(a: Act, s: Snapshot, next: Option<u8>) -> (Snapshot, Signal) {
    let on = s.pc + 1;
    match a {
        Act::Skip => (s.at(on), Signal::Step),
        Act::Left(n) => if s.tape.in_range(-n) {
            (Snapshot { pc: on, tape: s.tape.shift(-n) }, Signal::Step)
        } else {
            (s, Signal::Fault(RunError::Memory))
        },
        Act::Right(n) => if s.tape.in_range(n) {
            (Snapshot { pc: on, tape: s.tape.shift(n) }, Signal::Step)
        } else {
            (s, Signal::Fault(RunError::Memory))
        },
        Act::Add(n) => (
            Snapshot { pc: on, tape: s.tape.put(add_wrap(s.tape.cell(), n)) },
            Signal::Step,
        ),
        Act::Sub(n) => (
            Snapshot { pc: on, tape: s.tape.put(sub_wrap(s.tape.cell(), n)) },
            Signal::Step,
        ),
        Act::Clear => (Snapshot { pc: on, tape: s.tape.put(0) }, Signal::Step),
        Act::IfZero(t) => (
            s.at(
                if s.tape.cell() == 0 {
                    t
                } else {
                    on
                },
            ),
            Signal::Step,
        ),
        Act::IfNonZero(t) => (
            s.at(
                if s.tape.cell() != 0 {
                    t
                } else {
                    on
                },
            ),
            Signal::Step,
        ),
        Act::Put => (s.at(on), Signal::Emit(s.tape.cell())),
        Act::Get => match next {
            Some(b) => (Snapshot { pc: on, tape: s.tape.put(b) }, Signal::Read),
            None => (s, Signal::Fault(RunError::Io)),
        },
        Act::Stop => (s, Signal::Halt),
    }
}

/// The program is finished in state `s`.
pub open spec fn halted(acts: Seq<Act>, s: Snapshot) -> bool {
    !(0 <= s.pc < acts.len()) || acts[s.pc] is Stop
}

/// The next step reads input.
pub open spec fn awaits_input(acts: Seq<Act>, s: Snapshot) -> bool {
    0 <= s.pc < acts.len() && acts[s.pc] is Get
}

/// One step of the program `acts` from state `s`.
pub open spec fn step_spec(acts: Seq<Act>, s: Snapshot, next: Option<u8>) -> (Snapshot, Signal) {
    if halted(acts, s) {
        (s, Signal::Halt)
    } else {
        act_step(acts[s.pc], s, next)
    }
}

/// A run in progress: the machine, how many input bytes are used up, and
/// what has been written.
pub struct Config {
    pub state: Snapshot,
    pub taken: int,
    pub out: Seq<u8>,
    /// The number of bytes that the output holds at most, if it has a limit.
    pub limit: Option<nat>,
}

impl Config {
    /// Start of a run with no limit to the output.
    pub open spec fn start() -> Config {
        Config::start_within(None)
    }

    /// Start of a run whose output holds `limit` bytes at most, if that is
    /// not `None`.
    pub open spec fn start_within(limit: Option<nat>) -> Config {
        Config { state: Snapshot::start(), taken: 0, out: Seq::empty(), limit }
    }

    /// The output has no room for another byte.
    pub open spec fn full(self) -> bool {
        match self.limit {
            Some(n) => self.out.len() >= n,
            None => false,
        }
    }

    /// The byte that input delivers next, if any is left.
    pub open spec fn next(self, input: Seq<u8>) -> Option<u8> {
        if 0 <= self.taken < input.len() {
            Some(input[self.taken])
        } else {
            None
        }
    }

    /// The run after a step that ended in `s` with signal `sig`.
    pub open spec fn advance(self, s: Snapshot, sig: Signal) -> Config {
        match sig {
            Signal::Emit(b) => Config {
                state: s,
                taken: self.taken,
                out: self.out.push(b),
                limit: self.limit,
            },
            Signal::Read => Config {
                state: s,
                taken: self.taken + 1,
                out: self.out,
                limit: self.limit,
            },
            _ => Config { state: s, taken: self.taken, out: self.out, limit: self.limit },
        }
    }
}

/// The byte that the next step writes, if it writes one.
pub open spec fn emits(acts: Seq<Act>, s: Snapshot) -> Option<u8> {
    if 0 <= s.pc < acts.len() && acts[s.pc] is Put {
        Some(s.tape.cell())
    } else {
        None
    }
}

/// One step of the program `acts` in the run `c`: the step of the machine,
/// unless it would write a byte that the output has no room for, which is
/// an I/O fault and changes nothing.
pub open spec fn turn(acts: Seq<Act>, input: Seq<u8>, c: Config) -> (Snapshot, Signal) {
    if emits(acts, c.state) is Some && c.full() {
        (c.state, Signal::Fault(RunError::Io))
    } else {
        step_spec(acts, c.state, c.next(input))
    }
}

/// Runs `acts` on `input` from `c` for at most `fuel` steps.
///
/// The run ends with `Ok` when the program is finished, with the fault when
/// a step cannot be taken, and with `StepLimit` when `fuel` steps were taken
/// and the program is not finished. The configuration is the one in which
/// the run ended.
pub open spec fn run_spec(acts: Seq<Act>, input: Seq<u8>, c: Config, fuel: nat) -> (
    Config,
    Result<(), RunError>,
)
    decreases fuel,
{
    if halted(acts, c.state) {
        (c, Ok(()))
    } else if fuel == 0 {
        (c, Err(RunError::StepLimit))
    } else {
        let (s, sig) = turn(acts, input, c);
        match sig {
            Signal::Fault(e) => (c, Err(e)),
            _ => run_spec(acts, input, c.advance(s, sig), (fuel - 1) as nat),
        }
    }
}

/// A write that the output rejects is an I/O failure. When the next step
/// would write a byte and the output has no room for it, the run ends there
/// with the I/O fault, and nothing is written, read or changed.
pub proof fn law_rejected_write_fails(acts: Seq<Act>, input: Seq<u8>, c: Config, fuel: nat)
    requires
        emits(acts, c.state) is Some,
        c.full(),
        fuel >= 1,
    ensures
        run_spec(acts, input, c, fuel) == (c, Err::<(), RunError>(RunError::Io)),
{
}

/// The run after exactly `m` more steps from `c`, if it can take that many:
/// `None` if the program finishes or a step faults before.
pub open spec fn steps(acts: Seq<Act>, input: Seq<u8>, c: Config, m: nat) -> Option<Config>
    decreases m,
{
    if m == 0 {
        Some(c)
    } else if halted(acts, c.state) {
        None
    } else {
        let (s, sig) = turn(acts, input, c);
        match sig {
            Signal::Fault(_) => None,
            _ => steps(acts, input, c.advance(s, sig), (m - 1) as nat),
        }
    }
}

/// A run that comes to an end, rather than running out of steps.
pub open spec fn finished(end: (Config, Result<(), RunError>)) -> bool {
    end.1 != Err::<(), RunError>(RunError::StepLimit)
}

/// Steps taken one after the other add up.
pub proof fn lemma_steps_add(acts: Seq<Act>, input: Seq<u8>, c: Config, a: nat, b: nat)
    requires
        steps(acts, input, c, a) is Some,
    ensures
        steps(acts, input, c, a + b) == steps(acts, input, steps(acts, input, c, a).unwrap(), b),
    decreases a,
{
    if a > 0 {
        let (s, sig) = turn(acts, input, c);
        lemma_steps_add(acts, input, c.advance(s, sig), (a - 1) as nat, b);
    }
}

/// A run that first takes `m` steps goes on from where they end, with the
/// rest of its fuel.
pub proof fn lemma_run_after_steps(acts: Seq<Act>, input: Seq<u8>, c: Config, m: nat, fuel: nat)
    requires
        steps(acts, input, c, m) is Some,
    ensures
        run_spec(acts, input, c, m + fuel) == run_spec(
            acts,
            input,
            steps(acts, input, c, m).unwrap(),
            fuel,
        ),
    decreases m,
{
    if m > 0 {
        let (s, sig) = turn(acts, input, c);
        lemma_run_after_steps(acts, input, c.advance(s, sig), (m - 1) as nat, fuel);
    }
}

/// More fuel does not change how a run ends, once it comes to an end.
pub proof fn lemma_more_fuel(acts: Seq<Act>, input: Seq<u8>, c: Config, fuel: nat, more: nat)
    requires
        finished(run_spec(acts, input, c, fuel)),
    ensures
        run_spec(acts, input, c, fuel + more) == run_spec(acts, input, c, fuel),
    decreases fuel,
{
    if halted(acts, c.state) {
    } else if fuel == 0 {
    } else {
        let (s, sig) = turn(acts, input, c);
        match sig {
            Signal::Fault(e) => {},
            _ => {
                lemma_more_fuel(acts, input, c.advance(s, sig), (fuel - 1) as nat, more);
            },
        }
    }
}

/// `a` is the start of `b`.
pub open spec fn starts(a: Seq<u8>, b: Seq<u8>) -> bool {
    a.len() <= b.len() && a == b.subrange(0, a.len() as int)
}

/// Everything is a start of itself.
pub proof fn lemma_starts_self(a: Seq<u8>)
    ensures
        starts(a, a),
{
    assert(a =~= a.subrange(0, a.len() as int));
}

/// Being a start carries over.
pub proof fn lemma_starts_chain(a: Seq<u8>, b: Seq<u8>, c: Seq<u8>)
    requires
        starts(a, b),
        starts(b, c),
    ensures
        starts(a, c),
{
    assert(a =~= c.subrange(0, a.len() as int));
}

/// With more fuel a run writes what it wrote with less, and maybe more
/// after it.
pub proof fn lemma_output_grows(acts: Seq<Act>, input: Seq<u8>, c: Config, fuel: nat, more: nat)
    ensures
        starts(c.out, run_spec(acts, input, c, fuel).0.out),
        starts(
            run_spec(acts, input, c, fuel).0.out,
            run_spec(acts, input, c, fuel + more).0.out,
        ),
    decreases fuel + more,
{
    assert(c.out =~= c.out.subrange(0, c.out.len() as int));
    let short = run_spec(acts, input, c, fuel).0.out;
    let long = run_spec(acts, input, c, fuel + more).0.out;
    if halted(acts, c.state) {
    } else {
        let (s, sig) = turn(acts, input, c);
        let c2 = c.advance(s, sig);
        match sig {
            Signal::Fault(_) => {},
            _ => {
                assert(starts(c.out, c2.out)) by {
                    assert(c.out =~= c2.out.subrange(0, c.out.len() as int));
                }
                if fuel == 0 {
                    if more > 0 {
                        lemma_output_grows(acts, input, c2, (more - 1) as nat, 0);
                        let end = run_spec(acts, input, c2, (more - 1) as nat).0.out;
                        assert(c.out =~= end.subrange(0, c.out.len() as int));
                    }
                } else {
                    lemma_output_grows(acts, input, c2, (fuel - 1) as nat, more);
                    let end = run_spec(acts, input, c2, (fuel - 1) as nat).0.out;
                    assert(c.out =~= end.subrange(0, c.out.len() as int));
                }
            },
        }
    }
    assert(short =~= long.subrange(0, short.len() as int));
}

/// How a run ends does not depend on the fuel, as long as it is enough.
pub proof fn lemma_end_unique(acts: Seq<Act>, input: Seq<u8>, c: Config, f1: nat, f2: nat)
    requires
        finished(run_spec(acts, input, c, f1)),
        finished(run_spec(acts, input, c, f2)),
    ensures
        run_spec(acts, input, c, f1) == run_spec(acts, input, c, f2),
{
    if f1 <= f2 {
        lemma_more_fuel(acts, input, c, f1, (f2 - f1) as nat);
    } else {
        lemma_more_fuel(acts, input, c, f2, (f1 - f2) as nat);
    }
}

/// What a finished or abandoned run leaves behind.
#[derive(Debug)]
pub struct Outcome {
    /// The bytes written, in program order.
    pub output: Vec<u8>,
    /// How many input bytes were used up.
    pub consumed: usize,
    /// `Ok` if the program finished, else why it did not.
    pub result: Result<(), RunError>,
}

impl Outcome {
    /// The outcome of a run that ended in `c` with `r`.
    pub open spec fn is(self, end: (Config, Result<(), RunError>)) -> bool {
        self.output@ == end.0.out && self.consumed == end.0.taken && self.result == end.1
    }

    /// The outcome of a program that was refused before it ran.
    pub fn refused(e: RunError) -> (o: Outcome)
        ensures
            o.output@ == Seq::<u8>::empty(),
            o.consumed == 0,
            o.result == Err::<(), RunError>(e),
    {
        Outcome { output: Vec::new(), consumed: 0, result: Err(e) }
    }
}

/// A machine that runs one program, one step at a time.
pub trait Machine: Sized {
    /// The program, position by position.
    spec fn acts(&self) -> Seq<Act>;

    /// Where the machine stands.
    spec fn state(&self) -> Snapshot;

    /// Whether the program is finished.
    fn halted(&self) -> (b: bool)
        ensures
            b == halted(self.acts(), self.state()),
    ;

    /// Whether the next step needs a byte of input.
    fn wants_input(&self) -> (b: bool)
        ensures
            b == awaits_input(self.acts(), self.state()),
    ;

    /// The byte that the next step writes, if it writes one.
    fn pending_output(&self) -> (b: Option<u8>)
        ensures
            b == emits(self.acts(), self.state()),
    ;

    /// Takes one step. `next` is the byte that input delivers now, if any;
    /// it is used up only when the signal is `Read`.
    fn step(self, next: Option<u8>) -> (r: (Self, Signal))
        ensures
            r.0.acts() == self.acts(),
            (r.0.state(), r.1) == step_spec(self.acts(), self.state(), next),
    ;
}

/// What `next` holds does not matter to a step that reads no input.
pub proof fn lemma_next_unused(acts: Seq<Act>, s: Snapshot, a: Option<u8>, b: Option<u8>)
    requires
        !awaits_input(acts, s),
    ensures
        step_spec(acts, s, a) == step_spec(acts, s, b),
{
}

/// Runs a machine on the streams `io`, for at most `fuel` steps. All bytes
/// go through `getchar` and `putchar` of the streams: a byte is written
/// before the step that emits it is taken, and if the write fails the run
/// ends there with an I/O fault.
pub fn drive_on<M: Machine>(m: M, io: State, fuel: u64) -> (r: (M, State, Result<(), RunError>))
    ensures
        r.0.acts() == m.acts(),
        r.1.input() == io.input(),
        r.1.limit() == io.limit(),
        (Config {
            state: r.0.state(),
            taken: r.1.consumed(),
            out: r.1.written(),
            limit: r.1.limit(),
        }, r.2) == run_spec(
            m.acts(),
            io.input(),
            Config {
                state: m.state(),
                taken: io.consumed(),
                out: io.written(),
                limit: io.limit(),
            },
            fuel as nat,
        ),
{
    let ghost acts = m.acts();
    let ghost input = io.input();
    let ghost c0 = Config {
        state: m.state(),
        taken: io.consumed(),
        out: io.written(),
        limit: io.limit(),
    };
    let mut cur = m;
    let mut streams = io;
    let mut left: u64 = fuel;
    loop
        invariant
            acts == m.acts(),
            input == io.input(),
            c0 == (Config {
                state: m.state(),
                taken: io.consumed(),
                out: io.written(),
                limit: io.limit(),
            }),
            streams.input() == input,
            streams.limit() == c0.limit,
            cur.acts() == acts,
            run_spec(
                acts,
                input,
                Config {
                    state: cur.state(),
                    taken: streams.consumed(),
                    out: streams.written(),
                    limit: streams.limit(),
                },
                left as nat,
            ) == run_spec(acts, input, c0, fuel as nat),
        decreases left,
    {
        let ghost c = Config {
            state: cur.state(),
            taken: streams.consumed(),
            out: streams.written(),
            limit: streams.limit(),
        };
        proof {
            streams.lemma_consumed_in_range();
        }
        if cur.halted() {
            return (cur, streams, Ok(()));
        }
        if left == 0 {
            return (cur, streams, Err(RunError::StepLimit));
        }
        let mut next: Option<u8> = None;
        match cur.pending_output() {
            Some(b) => {
                if streams.putchar(&b) != TRANSFER_OK {
                    return (cur, streams, Err(RunError::Io));
                }
                proof {
                    lemma_next_unused(acts, c.state, next, c.next(input));
                }
            },
            None => {
                if cur.wants_input() {
                    let mut cell: u8 = 0;
                    if streams.getchar(&mut cell) == TRANSFER_OK {
                        next = Some(cell);
                    }
                    assert(next == c.next(input));
                } else {
                    proof {
                        lemma_next_unused(acts, c.state, next, c.next(input));
                    }
                }
            },
        }
        let (m2, sig) = cur.step(next);
        match sig {
            Signal::Fault(e) => {
                return (m2, streams, Err(e));
            },
            _ => {},
        }
        cur = m2;
        left = left - 1;
        assert(Config {
            state: cur.state(),
            taken: streams.consumed(),
            out: streams.written(),
            limit: streams.limit(),
        } == c.advance(cur.state(), sig));
    }
}

/// Runs a machine on `input` held in memory, for at most `fuel` steps, and
/// collects what it writes, with no limit to the output.
pub fn drive<M: Machine>(m: M, input: &[u8], fuel: u64) -> (r: (M, Outcome))
    ensures
        r.0.acts() == m.acts(),
        r.1.is(
            run_spec(
                m.acts(),
                input@,
                Config { state: m.state(), taken: 0, out: Seq::empty(), limit: None },
                fuel as nat,
            ),
        ),
        r.0.state() == run_spec(
            m.acts(),
            input@,
            Config { state: m.state(), taken: 0, out: Seq::empty(), limit: None },
            fuel as nat,
        ).0.state,
{
    let io = State::new(slice_to_vec(input), Vec::new());
    let (m, io, result) = drive_on(m, io, fuel);
    let consumed = io.cursor();
    (m, Outcome { output: io.into_output(), consumed, result })
}

} // verus!
