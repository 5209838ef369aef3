use bfjit::errors::{CompileError, RunError};
use bfjit::interpreter::{interp_1, interp_2, interp_3, interp_4, interp_5, interp_6};
use bfjit::jit::{aarch64_jit, x64_jit};
use bfjit::machine::Outcome;

const FUEL: u64 = 1_000_000;

fn all(prog: &[u8], input: &[u8]) -> Vec<Outcome> {
    vec![
        interp_1::run(prog, input, FUEL),
        interp_2::run(prog, input, FUEL),
        interp_3::run(prog, input, FUEL),
        interp_4::run(prog, input, FUEL),
        interp_5::run(prog, input, FUEL),
        interp_6::run(prog, input, FUEL),
        x64_jit::run(prog, input, FUEL),
        aarch64_jit::run(prog, input, FUEL),
    ]
}

#[test]
fn two_increments_then_output() {
    for o in all(b"++.", &[]) {
        assert_eq!(o.result, Ok(()));
        assert_eq!(o.output, vec![2]);
        assert_eq!(o.consumed, 0);
    }
}

#[test]
fn input_is_echoed() {
    for o in all(b",.", &[0x41]) {
        assert_eq!(o.result, Ok(()));
        assert_eq!(o.output, vec![0x41]);
        assert_eq!(o.consumed, 1);
    }
}

#[test]
fn greeting_is_printed() {
    let prog = b"++++++++++[>+++++++>++++++++++>+++>+<<<<-]>++.>+.+++++++..+++.>++.<<+++++++++++++++.>.+++.------.--------.>+.>.";
    for o in all(prog, &[]) {
        assert_eq!(o.result, Ok(()));
        assert_eq!(o.output, b"Hello World!\n".to_vec());
    }
}

#[test]
fn extra_open_fails_before_any_output() {
    for o in all(b"+.[[-]", &[]) {
        assert_eq!(o.result, Err(RunError::Compile(CompileError::UnmatchedOpen)));
        assert!(o.output.is_empty());
        assert_eq!(o.consumed, 0);
    }
}

#[test]
fn extra_close_fails_before_any_output() {
    for o in all(b"+.]+.", &[]) {
        assert_eq!(o.result, Err(RunError::Compile(CompileError::UnmatchedClose)));
        assert!(o.output.is_empty());
    }
}

#[test]
fn stray_close_is_reported_before_stray_open() {
    for o in all(b"][", &[]) {
        assert_eq!(o.result, Err(RunError::Compile(CompileError::UnmatchedClose)));
    }
}

#[test]
fn exhausted_input_is_an_io_failure() {
    for o in all(b"+.,.", &[]) {
        assert_eq!(o.result, Err(RunError::Io));
        assert_eq!(o.output, vec![1]);
        assert_eq!(o.consumed, 0);
    }
    for o in all(b",.,.", &[9]) {
        assert_eq!(o.result, Err(RunError::Io));
        assert_eq!(o.output, vec![9]);
        assert_eq!(o.consumed, 1);
    }
}

#[test]
fn pointer_may_not_leave_the_tape() {
    for o in all(b"+.<", &[]) {
        assert_eq!(o.result, Err(RunError::Memory));
        assert_eq!(o.output, vec![1]);
    }
    let edge = vec![b'>'; 29999];
    for o in all(&edge, &[]) {
        assert_eq!(o.result, Ok(()));
    }
    let over = vec![b'>'; 30000];
    for o in all(&over, &[]) {
        assert_eq!(o.result, Err(RunError::Memory));
    }
}

#[test]
fn long_runs_wrap_around() {
    let mut prog = vec![b'+'; 600];
    prog.push(b'.');
    prog.extend(vec![b'-'; 345]);
    prog.push(b'.');
    for o in all(&prog, &[]) {
        assert_eq!(o.result, Ok(()));
        assert_eq!(o.output, vec![(600 % 256) as u8, 255]);
    }
}

#[test]
fn clear_idiom_clears_every_value() {
    for v in 0..=255u8 {
        for o in all(b",[-].", &[v]) {
            assert_eq!(o.result, Ok(()));
            assert_eq!(o.output, vec![0]);
        }
    }
}

#[test]
fn loop_that_never_ends_runs_out_of_fuel() {
    for o in all(b"+[.]", &[]) {
        assert_eq!(o.result, Err(RunError::StepLimit));
        assert!(!o.output.is_empty());
    }
}

#[test]
fn commentary_is_skipped() {
    for o in all(b"one + two + three . done", &[]) {
        assert_eq!(o.result, Ok(()));
        assert_eq!(o.output, vec![2]);
    }
}

fn generated(seed: u64, len: usize) -> Vec<u8> {
    let alphabet = b"+-<>.,[] x+->[-]";
    let mut state = seed.wrapping_mul(6364136223846793005).wrapping_add(1442695040888963407);
    let mut prog = Vec::new();
    let mut open = 0usize;
    for _ in 0..len {
        state = state.wrapping_mul(6364136223846793005).wrapping_add(1442695040888963407);
        let c = alphabet[((state >> 33) % alphabet.len() as u64) as usize];
        if c == b']' {
            if open == 0 {
                continue;
            }
            open -= 1;
        }
        if c == b'[' {
            open += 1;
        }
        prog.push(c);
    }
    for _ in 0..open {
        prog.push(b']');
    }
    prog
}

#[test]
fn backends_agree_on_generated_programs() {
    let input: Vec<u8> = (0..64u8).map(|i| i.wrapping_mul(37)).collect();
    let mut finished = 0;
    for seed in 0..300u64 {
        let prog = generated(seed, 60);
        let raw = interp_1::run(&prog, &input, 20_000);
        if raw.result == Err(RunError::StepLimit) {
            continue;
        }
        finished += 1;
        let others = vec![
            interp_2::run(&prog, &input, 20_000),
            interp_3::run(&prog, &input, 20_000),
            interp_4::run(&prog, &input, 20_000),
            interp_5::run(&prog, &input, 20_000),
            interp_6::run(&prog, &input, 60_001),
            x64_jit::run(&prog, &input, 20_001),
            aarch64_jit::run(&prog, &input, 20_001),
        ];
        for o in others {
            assert_eq!(o.result, raw.result, "program {:?}", String::from_utf8_lossy(&prog));
            assert_eq!(o.output, raw.output, "program {:?}", String::from_utf8_lossy(&prog));
            assert_eq!(o.consumed, raw.consumed, "program {:?}", String::from_utf8_lossy(&prog));
        }
    }
    assert!(finished > 100);
}

#[test]
fn endless_programs_write_the_same_stream() {
    let outs: Vec<Vec<u8>> = all(b"+[>+.<]", &[])
        .into_iter()
        .map(|o| {
            assert_eq!(o.result, Err(RunError::StepLimit));
            o.output
        })
        .collect();
    for a in &outs {
        for b in &outs {
            let n = a.len().min(b.len());
            assert!(n > 1000);
            assert_eq!(a[..n], b[..n]);
        }
    }
}
