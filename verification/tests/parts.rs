use bfjit::bf_types::BF_MEMORY_SIZE;
use bfjit::errors::{CompileError, RunError};
use bfjit::interpreter::{interp_1, interp_2, interp_3, interp_4, interp_5, interp_6};
use bfjit::jit::image::Image;
use bfjit::jit::{aarch64_jit, x64_jit};
use bfjit::jit::engine::{Engine, Event, Phase};
use bfjit::jit::jit::Arch;
use bfjit::jit::state::{State, TRANSFER_FAILED, TRANSFER_OK};
use bfjit::machine::{drive, drive_on, Machine, Signal};
use bfjit::tape::Tape;

#[test]
fn tape_is_blank_and_of_fixed_length() {
    let t = Tape::new();
    assert_eq!(t.pointer(), 0);
    assert_eq!(t.get(), 0);
    let (t, ok) = t.right(BF_MEMORY_SIZE - 1);
    assert!(ok);
    assert_eq!(t.pointer(), BF_MEMORY_SIZE - 1);
    let (t, ok) = t.right(1);
    assert!(!ok);
    assert_eq!(t.pointer(), BF_MEMORY_SIZE - 1);
    let (t, ok) = t.left(BF_MEMORY_SIZE);
    assert!(!ok);
    let (t, ok) = t.left(BF_MEMORY_SIZE - 1);
    assert!(ok);
    assert_eq!(t.pointer(), 0);
}

#[test]
fn cells_wrap_at_256() {
    let t = Tape::new().add(200).add(100);
    assert_eq!(t.get(), 44);
    let t = t.sub(45);
    assert_eq!(t.get(), 255);
    let t = t.set(7);
    assert_eq!(t.get(), 7);
    let t = t.sub(7).sub(1);
    assert_eq!(t.get(), 255);
}

#[test]
fn getchar_reads_one_byte_or_fails() {
    let mut s = State::new(vec![10, 20], vec![]);
    let mut cell = 0u8;
    assert_eq!(s.getchar(&mut cell), TRANSFER_OK);
    assert_eq!(cell, 10);
    assert_eq!(s.cursor(), 1);
    assert_eq!(s.getchar(&mut cell), TRANSFER_OK);
    assert_eq!(cell, 20);
    assert_eq!(s.getchar(&mut cell), TRANSFER_FAILED);
    assert_eq!(cell, 20);
    assert_eq!(s.cursor(), 2);
}

#[test]
fn putchar_writes_one_byte() {
    let mut s = State::new(vec![], vec![1]);
    assert_eq!(s.putchar(&2), TRANSFER_OK);
    assert_eq!(s.putchar(&3), TRANSFER_OK);
    assert_eq!(s.into_output(), vec![1, 2, 3]);
}

#[test]
fn machine_steps_one_at_a_time() {
    let m = interp_5::load(b"+++.,").unwrap();
    assert!(!m.halted());
    assert!(!m.wants_input());
    let (m, sig) = m.step(None);
    assert_eq!(sig, Signal::Step);
    assert_eq!(m.tape().get(), 3);
    let (m, sig) = m.step(None);
    assert_eq!(sig, Signal::Emit(3));
    assert!(m.wants_input());
    let (m, sig) = m.step(None);
    assert_eq!(sig, Signal::Fault(RunError::Io));
    let (m, sig) = m.step(Some(9));
    assert_eq!(sig, Signal::Read);
    assert_eq!(m.tape().get(), 9);
    assert!(m.halted());
    let (_, sig) = m.step(None);
    assert_eq!(sig, Signal::Halt);
}

#[test]
fn fused_run_leaves_the_tape_of_single_steps() {
    let mut prog = vec![b'>'; 70];
    prog.extend(vec![b'+'; 700]);
    prog.extend(vec![b'<'; 30]);
    prog.extend(vec![b'-'; 300]);
    let (raw, a) = drive(interp_1::load(&prog).unwrap(), &[], 10_000);
    let (fused, b) = drive(interp_5::load(&prog).unwrap(), &[], 10_000);
    assert_eq!(a.result, Ok(()));
    assert_eq!(b.result, Ok(()));
    assert_eq!(raw.tape().pointer(), 40);
    assert_eq!(fused.tape().pointer(), 40);
    assert_eq!(raw.tape().get(), (256 - 300 % 256) as u8);
    assert_eq!(fused.tape().get(), raw.tape().get());
    assert_eq!(raw.tape().peek(70), Some((700 % 256) as u8));
    assert_eq!(fused.tape().peek(70), Some((700 % 256) as u8));
    assert_eq!(fused.tape().peek(0), Some(0));
    assert_eq!(fused.tape().peek(BF_MEMORY_SIZE), None);
}

#[test]
fn clear_loop_and_clear_operation_leave_the_same_tape() {
    for v in 0..=255u8 {
        let (raw, a) = drive(interp_1::load(b",[-]").unwrap(), &[v], 10_000);
        let (high, b) = drive(interp_5::load(b",[-]").unwrap(), &[v], 10_000);
        assert_eq!(a.result, Ok(()));
        assert_eq!(b.result, Ok(()));
        assert_eq!(raw.tape().get(), 0);
        assert_eq!(high.tape().get(), 0);
        assert_eq!(raw.tape().pointer(), high.tape().pointer());
    }
}

#[test]
fn engine_goes_through_its_phases_in_order() {
    let e = Engine::new(Arch::X64);
    assert_eq!(e.phase, Phase::Unbuilt);
    assert!(!e.may_execute());
    let e = e.advance(Event::Returned(0));
    assert_eq!(e.phase, Phase::Unbuilt);
    let e = e.advance(Event::Finalized(true));
    assert_eq!(e.phase, Phase::Unbuilt);
    let e = e.advance(Event::Built);
    assert_eq!(e.phase, Phase::Compiled);
    assert!(!e.may_execute());
    let e = e.advance(Event::Finalized(true));
    assert_eq!(e.phase, Phase::Executing);
    assert!(e.may_execute());
    let e = e.advance(Event::Returned(0));
    assert_eq!(e.phase, Phase::Succeeded);
    let e = e.advance(Event::Built);
    assert_eq!(e.phase, Phase::Succeeded);
}

#[test]
fn engine_fails_for_good() {
    let e = Engine::new(Arch::Aarch64).advance(Event::Refused(CompileError::UnmatchedOpen));
    assert_eq!(e.phase, Phase::Failed(RunError::Compile(CompileError::UnmatchedOpen)));
    let e = e.advance(Event::Built).advance(Event::Finalized(true));
    assert_eq!(e.phase, Phase::Failed(RunError::Compile(CompileError::UnmatchedOpen)));
    let e = Engine::new(Arch::X64).advance(Event::Built).advance(Event::Finalized(false));
    assert_eq!(e.phase, Phase::Failed(RunError::Backend));
    let e = Engine::new(Arch::Other).advance(Event::Built);
    assert_eq!(e.phase, Phase::Failed(RunError::UnsupportedArch));
}

#[test]
fn engine_reads_the_status_of_its_architecture() {
    let run = |arch: Arch, status: u8| {
        Engine::new(arch)
            .advance(Event::Built)
            .advance(Event::Finalized(true))
            .advance(Event::Returned(status))
            .phase
    };
    assert_eq!(run(Arch::X64, 1), Phase::Failed(RunError::Io));
    assert_eq!(run(Arch::X64, 2), Phase::Failed(RunError::Memory));
    assert_eq!(run(Arch::Aarch64, 1), Phase::Failed(RunError::Memory));
    assert_eq!(run(Arch::Aarch64, 2), Phase::Failed(RunError::Io));
    assert_eq!(run(Arch::Aarch64, 3), Phase::Failed(RunError::Unknown(3)));
    assert_eq!(run(Arch::X64, 0), Phase::Succeeded);
}

#[test]
fn run_errors_have_their_wording() {
    assert_eq!(RunError::Compile(CompileError::UnmatchedOpen).message(), "[ without matching ]");
    assert_eq!(RunError::Io.message(), "IO error");
    assert_eq!(RunError::Memory.message(), "Memory Error");
    assert_eq!(RunError::StepLimit.message(), "Step limit reached");
    assert_eq!(RunError::UnsupportedArch.message(), "Architecture not supported!");
    assert_eq!(RunError::Backend.message(), "Assembler finalize error");
    assert_eq!(RunError::Unknown(9).message(), "Unknown Error");
}

#[test]
fn loop_partners_are_found_by_search_at_run_time() {
    let (m, o) = drive(interp_1::load(b"+[>+[>+<-]<-]>>.").unwrap(), &[], 1000);
    assert_eq!(o.result, Ok(()));
    assert_eq!(o.output, vec![1]);
    assert_eq!(m.tape().pointer(), 2);
}

#[test]
fn putchar_fails_when_the_output_is_full() {
    let mut s = State::with_limit(vec![], vec![], 2);
    assert_eq!(s.putchar(&7), TRANSFER_OK);
    assert_eq!(s.putchar(&8), TRANSFER_OK);
    assert_eq!(s.putchar(&9), TRANSFER_FAILED);
    assert_eq!(s.putchar(&9), TRANSFER_FAILED);
    assert_eq!(s.into_output(), vec![7, 8]);
    let mut none = State::with_limit(vec![], vec![], 0);
    assert_eq!(none.putchar(&1), TRANSFER_FAILED);
    assert!(none.into_output().is_empty());
    let mut over = State::with_limit(vec![], vec![1, 2, 3], 2);
    assert_eq!(over.putchar(&4), TRANSFER_FAILED);
    assert_eq!(over.into_output(), vec![1, 2, 3]);
}

fn limited<M: Machine>(m: M, input: Vec<u8>, limit: usize) -> (Result<(), RunError>, Vec<u8>, usize) {
    let (_, io, result) = drive_on(m, State::with_limit(input, vec![], limit), 10_000);
    let consumed = io.cursor();
    (result, io.into_output(), consumed)
}

fn all_limited(prog: &[u8], input: &[u8], limit: usize) -> Vec<(Result<(), RunError>, Vec<u8>, usize)> {
    vec![
        limited(interp_1::load(prog).unwrap(), input.to_vec(), limit),
        limited(interp_2::load(prog).unwrap(), input.to_vec(), limit),
        limited(interp_3::load(prog).unwrap(), input.to_vec(), limit),
        limited(interp_4::load(prog).unwrap(), input.to_vec(), limit),
        limited(interp_5::load(prog).unwrap(), input.to_vec(), limit),
        limited(interp_6::load(prog).unwrap(), input.to_vec(), limit),
        limited(Image::finalize(x64_jit::compile(prog).unwrap()), input.to_vec(), limit),
        limited(Image::finalize(aarch64_jit::compile(prog).unwrap()), input.to_vec(), limit),
    ]
}

#[test]
fn a_rejected_write_is_an_io_failure() {
    for (result, output, consumed) in all_limited(b"+.+.,+.+.", &[40], 3) {
        assert_eq!(result, Err(RunError::Io));
        assert_eq!(output, vec![1, 2, 41]);
        assert_eq!(consumed, 1);
    }
    for (result, output, _) in all_limited(b"++.", &[], 0) {
        assert_eq!(result, Err(RunError::Io));
        assert!(output.is_empty());
    }
}

#[test]
fn a_limit_that_is_not_reached_changes_nothing() {
    for (result, output, consumed) in all_limited(b"+.+.,+.", &[40], 3) {
        assert_eq!(result, Ok(()));
        assert_eq!(output, vec![1, 2, 41]);
        assert_eq!(consumed, 1);
    }
    for (result, output, _) in all_limited(b"+++>++<[-]", &[], 0) {
        assert_eq!(result, Ok(()));
        assert!(output.is_empty());
    }
}

#[test]
fn a_rejected_write_leaves_the_machine_where_it_was() {
    let m = interp_5::load(b"+++>++.>+").unwrap();
    let (m, io, result) = drive_on(m, State::with_limit(vec![], vec![], 0), 100);
    assert_eq!(result, Err(RunError::Io));
    assert_eq!(m.pending_output(), Some(2));
    assert_eq!(m.tape().pointer(), 1);
    assert_eq!(m.tape().peek(2), Some(0));
    assert!(io.into_output().is_empty());
}
