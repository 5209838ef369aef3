use vstd::prelude::*;
use crate::errors::RunError;
use crate::machine::{Act, Config, Signal, Snapshot, finished, halted, lemma_more_fuel, lemma_output_grows, lemma_run_after_steps, lemma_starts_chain, lemma_starts_self, run_spec, starts, steps, turn};

verus! {

/// The configuration of a fine program that stands for `c` of a coarse one:
/// the same tape and streams, at the place that `pm` gives for the position.
pub open spec fn lift(pm: Seq<int>, c: Config) -> Config {
    Config {
        state: Snapshot { pc: pm[c.state.pc], tape: c.state.tape },
        taken: c.taken,
        out: c.out,
        limit: c.limit,
    }
}

/// A configuration that a program of `n` positions can be in.
pub open spec fn sane(c: Config, n: int) -> bool {
    c.state.tape.wf() && 0 <= c.state.pc <= n && c.taken >= 0
}

/// After `m` steps from `c` nothing was read or written, and the next step
/// faults with `e`.
pub open spec fn faults_after(acts: Seq<Act>, input: Seq<u8>, c: Config, m: nat, e: RunError) -> bool {
    match steps(acts, input, c, m) {
        Some(c2) => c2.out == c.out && c2.taken == c.taken && !halted(acts, c2.state) && turn(acts, input, c2).1 == Signal::Fault(e),
        None => false,
    }
}

/// After `m` steps from `c` nothing was read, written or changed on the
/// tape, and the program is finished.
pub open spec fn halts_after(acts: Seq<Act>, input: Seq<u8>, c: Config, m: nat) -> bool {
    match steps(acts, input, c, m) {
        Some(c2) => c2.out == c.out && c2.taken == c.taken && c2.state.tape == c.state.tape
            && halted(acts, c2.state),
        None => false,
    }
}

/// What the coarse program does next in `c`, the fine program does in one or
/// more steps from the configuration that stands for `c`.
pub open spec fn mirrored(
    coarse: Seq<Act>,
    fine: Seq<Act>,
    pm: Seq<int>,
    input: Seq<u8>,
    c: Config,
) -> bool {
    if halted(coarse, c.state) {
        exists|m: nat| halts_after(fine, input, lift(pm, c), m)
    } else {
        let (s, sig) = turn(coarse, input, c);
        match sig {
            Signal::Fault(e) => exists|m: nat| faults_after(fine, input, lift(pm, c), m, e),
            _ => sane(c.advance(s, sig), coarse.len() as int) && exists|m: nat|
                m >= 1 && #[trigger] steps(fine, input, lift(pm, c), m) == Some(
                    lift(pm, c.advance(s, sig)),
                ),
        }
    }
}

/// The fine program does what the coarse program does, step for step, with
/// `pm` saying where in the fine program each coarse position is.
pub open spec fn simulates(coarse: Seq<Act>, fine: Seq<Act>, pm: Seq<int>, input: Seq<u8>) -> bool {
    &&& pm.len() == coarse.len() + 1
    &&& forall|c: Config|
        sane(c, coarse.len() as int) ==> #[trigger] mirrored(coarse, fine, pm, input, c)
}

/// Two runs ended alike: same verdict, same bytes written, same bytes read;
/// and the same tape, if they finished.
pub open spec fn same_end(a: (Config, Result<(), RunError>), b: (Config, Result<(), RunError>)) -> bool {
    &&& a.1 == b.1
    &&& a.0.out == b.0.out
    &&& a.0.taken == b.0.taken
    &&& a.1 is Ok ==> a.0.state.tape == b.0.state.tape
}

/// While a program can still take `m` steps, fewer than `m` do not bring the
/// run to an end.
pub proof fn lemma_too_little_fuel(acts: Seq<Act>, input: Seq<u8>, c: Config, m: nat, fuel: nat)
    requires
        steps(acts, input, c, m) is Some,
        fuel < m,
    ensures
        !finished(run_spec(acts, input, c, fuel)),
    decreases m,
{
    if fuel > 0 {
        let (s, sig) = turn(acts, input, c);
        lemma_too_little_fuel(acts, input, c.advance(s, sig), (m - 1) as nat, (fuel - 1) as nat);
    }
}

/// If the coarse run comes to an end, so does the fine one, and alike.
pub proof fn lemma_forward(
    coarse: Seq<Act>,
    fine: Seq<Act>,
    pm: Seq<int>,
    input: Seq<u8>,
    c: Config,
    fuel: nat,
) -> (ff: nat)
    requires
        simulates(coarse, fine, pm, input),
        sane(c, coarse.len() as int),
        finished(run_spec(coarse, input, c, fuel)),
    ensures
        finished(run_spec(fine, input, lift(pm, c), ff)),
        same_end(run_spec(coarse, input, c, fuel), run_spec(fine, input, lift(pm, c), ff)),
    decreases fuel,
{
    assert(mirrored(coarse, fine, pm, input, c));
    let fc = lift(pm, c);
    if halted(coarse, c.state) {
        let m = choose|m: nat| halts_after(fine, input, fc, m);
        lemma_run_after_steps(fine, input, fc, m, 0);
        m
    } else {
        let (s, sig) = turn(coarse, input, c);
        match sig {
            Signal::Fault(e) => {
                let m = choose|m: nat| faults_after(fine, input, fc, m, e);
                lemma_run_after_steps(fine, input, fc, m, 1);
                (m + 1) as nat
            },
            _ => {
                let c2 = c.advance(s, sig);
                let m = choose|m: nat|
                    m >= 1 && #[trigger] steps(fine, input, fc, m) == Some(lift(pm, c2));
                let rest = lemma_forward(coarse, fine, pm, input, c2, (fuel - 1) as nat);
                lemma_run_after_steps(fine, input, fc, m, rest);
                (m + rest) as nat
            },
        }
    }
}

/// If the fine run comes to an end within `ff` steps, the coarse one does too.
pub proof fn lemma_backward(
    coarse: Seq<Act>,
    fine: Seq<Act>,
    pm: Seq<int>,
    input: Seq<u8>,
    c: Config,
    ff: nat,
)
    requires
        simulates(coarse, fine, pm, input),
        sane(c, coarse.len() as int),
        finished(run_spec(fine, input, lift(pm, c), ff)),
    ensures
        finished(run_spec(coarse, input, c, ff)),
    decreases ff,
{
    assert(mirrored(coarse, fine, pm, input, c));
    let fc = lift(pm, c);
    if halted(coarse, c.state) {
    } else {
        let (s, sig) = turn(coarse, input, c);
        match sig {
            Signal::Fault(e) => {
                let m = choose|m: nat| faults_after(fine, input, fc, m, e);
                if ff == 0 {
                    if m > 0 {
                        lemma_too_little_fuel(fine, input, fc, m, 0);
                    }
                }
            },
            _ => {
                let c2 = c.advance(s, sig);
                let m = choose|m: nat|
                    m >= 1 && #[trigger] steps(fine, input, fc, m) == Some(lift(pm, c2));
                if ff < m {
                    lemma_too_little_fuel(fine, input, fc, m, ff);
                } else {
                    lemma_run_after_steps(fine, input, fc, m, (ff - m) as nat);
                    lemma_backward(coarse, fine, pm, input, c2, (ff - m) as nat);
                    lemma_more_fuel(coarse, input, c2, (ff - m) as nat, (m - 1) as nat);
                }
            },
        }
    }
}

/// What the coarse run has written after any number of steps, the fine run
/// has written too, after enough steps, and maybe more.
pub proof fn lemma_forward_start(
    coarse: Seq<Act>,
    fine: Seq<Act>,
    pm: Seq<int>,
    input: Seq<u8>,
    c: Config,
    fuel: nat,
) -> (ff: nat)
    requires
        simulates(coarse, fine, pm, input),
        sane(c, coarse.len() as int),
    ensures
        starts(
            run_spec(coarse, input, c, fuel).0.out,
            run_spec(fine, input, lift(pm, c), ff).0.out,
        ),
    decreases fuel,
{
    assert(mirrored(coarse, fine, pm, input, c));
    let fc = lift(pm, c);
    lemma_starts_self(c.out);
    if halted(coarse, c.state) || fuel == 0 {
        0
    } else {
        let (s, sig) = turn(coarse, input, c);
        match sig {
            Signal::Fault(e) => 0,
            _ => {
                let c2 = c.advance(s, sig);
                let m = choose|m: nat|
                    m >= 1 && #[trigger] steps(fine, input, fc, m) == Some(lift(pm, c2));
                let rest = lemma_forward_start(coarse, fine, pm, input, c2, (fuel - 1) as nat);
                lemma_run_after_steps(fine, input, fc, m, rest);
                (m + rest) as nat
            },
        }
    }
}

/// What the fine run has written after any number of steps, the coarse run
/// has written too, after enough steps, and maybe more.
pub proof fn lemma_backward_start(
    coarse: Seq<Act>,
    fine: Seq<Act>,
    pm: Seq<int>,
    input: Seq<u8>,
    c: Config,
    ff: nat,
) -> (fuel: nat)
    requires
        simulates(coarse, fine, pm, input),
        sane(c, coarse.len() as int),
    ensures
        starts(
            run_spec(fine, input, lift(pm, c), ff).0.out,
            run_spec(coarse, input, c, fuel).0.out,
        ),
    decreases ff,
{
    assert(mirrored(coarse, fine, pm, input, c));
    let fc = lift(pm, c);
    if halted(coarse, c.state) {
        let m = choose|m: nat| halts_after(fine, input, fc, m);
        lemma_output_grows(fine, input, fc, ff, m);
        lemma_run_after_steps(fine, input, fc, m, ff);
        0
    } else {
        let (s, sig) = turn(coarse, input, c);
        match sig {
            Signal::Fault(e) => {
                let m = choose|m: nat| faults_after(fine, input, fc, m, e);
                lemma_output_grows(fine, input, fc, ff, m + 1);
                lemma_run_after_steps(fine, input, fc, m, ff + 1);
                0
            },
            _ => {
                let c2 = c.advance(s, sig);
                let m = choose|m: nat|
                    m >= 1 && #[trigger] steps(fine, input, fc, m) == Some(lift(pm, c2));
                if ff < m {
                    lemma_output_grows(fine, input, fc, ff, (m - ff) as nat);
                    lemma_run_after_steps(fine, input, fc, m, 0);
                    assert(run_spec(coarse, input, c, 1) == run_spec(coarse, input, c2, 0));
                    1
                } else {
                    lemma_run_after_steps(fine, input, fc, m, (ff - m) as nat);
                    let rest = lemma_backward_start(coarse, fine, pm, input, c2, (ff - m) as nat);
                    (1 + rest) as nat
                }
            },
        }
    }
}

/// From the start, with `lead` fine steps before the first coarse position:
/// what the coarse run has written, the fine run has written too, after
/// enough steps.
pub proof fn lemma_start_forward(
    coarse: Seq<Act>,
    fine: Seq<Act>,
    pm: Seq<int>,
    input: Seq<u8>,
    room: Option<nat>,
    lead: nat,
    fuel: nat,
) -> (ff: nat)
    requires
        simulates(coarse, fine, pm, input),
        steps(fine, input, Config::start_within(room), lead) == Some(lift(pm, Config::start_within(room))),
    ensures
        starts(
            run_spec(coarse, input, Config::start_within(room), fuel).0.out,
            run_spec(fine, input, Config::start_within(room), ff).0.out,
        ),
{
    let rest = lemma_forward_start(coarse, fine, pm, input, Config::start_within(room), fuel);
    lemma_run_after_steps(fine, input, Config::start_within(room), lead, rest);
    (lead + rest) as nat
}

/// From the start, with `lead` fine steps before the first coarse position:
/// what the fine run has written, the coarse run has written too, after
/// enough steps.
pub proof fn lemma_start_backward(
    coarse: Seq<Act>,
    fine: Seq<Act>,
    pm: Seq<int>,
    input: Seq<u8>,
    room: Option<nat>,
    lead: nat,
    ff: nat,
) -> (fuel: nat)
    requires
        simulates(coarse, fine, pm, input),
        steps(fine, input, Config::start_within(room), lead) == Some(lift(pm, Config::start_within(room))),
    ensures
        starts(
            run_spec(fine, input, Config::start_within(room), ff).0.out,
            run_spec(coarse, input, Config::start_within(room), fuel).0.out,
        ),
{
    if ff < lead {
        lemma_output_grows(fine, input, Config::start_within(room), ff, (lead - ff) as nat);
        lemma_run_after_steps(fine, input, Config::start_within(room), lead, 0);
        lemma_output_grows(coarse, input, Config::start_within(room), 0, 0);
        lemma_starts_chain(
            run_spec(fine, input, Config::start_within(room), ff).0.out,
            Config::start_within(room).out,
            run_spec(coarse, input, Config::start_within(room), 0).0.out,
        );
        0
    } else {
        lemma_run_after_steps(fine, input, Config::start_within(room), lead, (ff - lead) as nat);
        lemma_backward_start(coarse, fine, pm, input, Config::start_within(room), (ff - lead) as nat)
    }
}

} // verus!
