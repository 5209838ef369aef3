use bfjit::errors::CompileError;
use bfjit::interpreter::{interp_2, interp_3, interp_4, interp_5, interp_6};
use bfjit::ops::{lex, Op, PENDING};
use bfjit::resolver::link;
use bfjit::scan::check;

#[test]
fn every_instruction_byte_becomes_an_operation() {
    assert_eq!(
        lex(b"<>+-[].,", false, false),
        vec![
            Op::Left(1),
            Op::Right(1),
            Op::Add(1),
            Op::Sub(1),
            Op::LBrack(PENDING),
            Op::RBrack(PENDING),
            Op::Output,
            Op::Input,
        ]
    );
}

#[test]
fn other_bytes_are_skipped() {
    assert_eq!(lex(b"hello\n\t world!", true, true), vec![]);
    assert_eq!(lex(b"", true, true), vec![]);
}

#[test]
fn runs_are_fused_only_when_asked() {
    assert_eq!(lex(b"+++", false, false), vec![Op::Add(1), Op::Add(1), Op::Add(1)]);
    assert_eq!(lex(b"+++", true, false), vec![Op::Add(3)]);
    assert_eq!(
        lex(b"<<<<>>---+", true, false),
        vec![Op::Left(4), Op::Right(2), Op::Sub(3), Op::Add(1)]
    );
}

#[test]
fn a_byte_in_between_ends_a_run() {
    assert_eq!(lex(b"++ ++", true, true), vec![Op::Add(2), Op::Add(2)]);
}

#[test]
fn cell_changes_are_reduced_modulo_256() {
    assert_eq!(lex(&vec![b'+'; 255], true, true), vec![Op::Add(255)]);
    assert_eq!(lex(&vec![b'+'; 256], true, true), vec![]);
    assert_eq!(lex(&vec![b'-'; 257], true, true), vec![Op::Sub(1)]);
    assert_eq!(lex(&vec![b'+'; 1000], true, true), vec![Op::Add((1000 % 256) as u8)]);
}

#[test]
fn moves_keep_their_whole_length() {
    assert_eq!(lex(&vec![b'>'; 1000], true, true), vec![Op::Right(1000)]);
    assert_eq!(lex(&vec![b'<'; 256], true, true), vec![Op::Left(256)]);
}

#[test]
fn clear_idiom_is_one_operation() {
    assert_eq!(lex(b"[-]", true, true), vec![Op::Zero]);
    assert_eq!(
        lex(b"[-]", true, false),
        vec![Op::LBrack(PENDING), Op::Sub(1), Op::RBrack(PENDING)]
    );
    assert_eq!(
        lex(b"[--]", true, true),
        vec![Op::LBrack(PENDING), Op::Sub(2), Op::RBrack(PENDING)]
    );
    assert_eq!(
        lex(b"[ -]", true, true),
        vec![Op::LBrack(PENDING), Op::Sub(1), Op::RBrack(PENDING)]
    );
    assert_eq!(lex(b"[[-]", true, true), vec![Op::LBrack(PENDING), Op::Zero]);
    assert_eq!(lex(b"[-", true, true), vec![Op::LBrack(PENDING), Op::Sub(1)]);
}

#[test]
fn loops_are_linked_innermost_first() {
    let ops = link(lex(b"[+[-[.]]]", false, false)).unwrap();
    assert_eq!(
        ops,
        vec![
            Op::LBrack(8),
            Op::Add(1),
            Op::LBrack(7),
            Op::Sub(1),
            Op::LBrack(6),
            Op::Output,
            Op::RBrack(4),
            Op::RBrack(2),
            Op::RBrack(0),
        ]
    );
}

#[test]
fn link_reports_what_is_wrong_first() {
    assert_eq!(link(lex(b"]", false, false)), Err(CompileError::UnmatchedClose));
    assert_eq!(link(lex(b"[", false, false)), Err(CompileError::UnmatchedOpen));
    assert_eq!(link(lex(b"[]]", false, false)), Err(CompileError::UnmatchedClose));
    assert_eq!(link(lex(b"][", false, false)), Err(CompileError::UnmatchedClose));
    assert_eq!(link(lex(b"[[]", false, false)), Err(CompileError::UnmatchedOpen));
    assert_eq!(link(vec![]), Ok(vec![]));
}

#[test]
fn check_gives_the_verdict_of_link() {
    assert_eq!(check(&b"[[]]".to_vec()), Ok(()));
    assert_eq!(check(&b"[[]".to_vec()), Err(CompileError::UnmatchedOpen));
    assert_eq!(check(&b"[]]".to_vec()), Err(CompileError::UnmatchedClose));
    assert_eq!(check(&lex(b"+[-]+]", true, true)), Err(CompileError::UnmatchedClose));
    assert_eq!(check(&lex(b"+[-]+", true, true)), Ok(()));
}

#[test]
fn every_tier_parses_to_its_own_form() {
    let src = b"++[-]>[<<.]";
    assert_eq!(
        interp_2::parse(src).unwrap(),
        vec![
            Op::Add(1),
            Op::Add(1),
            Op::LBrack(PENDING),
            Op::Sub(1),
            Op::RBrack(PENDING),
            Op::Right(1),
            Op::LBrack(PENDING),
            Op::Left(1),
            Op::Left(1),
            Op::Output,
            Op::RBrack(PENDING),
        ]
    );
    assert_eq!(
        interp_3::parse(src).unwrap(),
        vec![
            Op::Add(1),
            Op::Add(1),
            Op::LBrack(4),
            Op::Sub(1),
            Op::RBrack(2),
            Op::Right(1),
            Op::LBrack(10),
            Op::Left(1),
            Op::Left(1),
            Op::Output,
            Op::RBrack(6),
        ]
    );
    assert_eq!(
        interp_4::parse(src).unwrap(),
        vec![
            Op::Add(2),
            Op::LBrack(3),
            Op::Sub(1),
            Op::RBrack(1),
            Op::Right(1),
            Op::LBrack(8),
            Op::Left(2),
            Op::Output,
            Op::RBrack(5),
        ]
    );
    assert_eq!(
        interp_5::parse(src).unwrap(),
        vec![
            Op::Add(2),
            Op::Zero,
            Op::Right(1),
            Op::LBrack(6),
            Op::Left(2),
            Op::Output,
            Op::RBrack(3),
        ]
    );
    assert_eq!(
        interp_6::parse(src).unwrap(),
        vec![
            Op::Add(2),
            Op::Zero,
            Op::Zero,
            Op::Zero,
            Op::Right(1),
            Op::LBrack(8),
            Op::Left(2),
            Op::Output,
            Op::RBrack(5),
        ]
    );
}

#[test]
fn every_tier_refuses_unbalanced_loops() {
    assert_eq!(interp_2::parse(b"[").err(), Some(CompileError::UnmatchedOpen));
    assert_eq!(interp_3::parse(b"]").err(), Some(CompileError::UnmatchedClose));
    assert_eq!(interp_4::parse(b"[]]").err(), Some(CompileError::UnmatchedClose));
    assert_eq!(interp_5::parse(b"[[-]").err(), Some(CompileError::UnmatchedOpen));
    assert_eq!(interp_6::parse(b"[-]]").err(), Some(CompileError::UnmatchedClose));
}

#[test]
fn errors_have_their_wording() {
    assert_eq!(CompileError::UnmatchedClose.message(), "] without matching [");
    assert_eq!(CompileError::UnmatchedOpen.message(), "[ without matching ]");
}

#[test]
fn clear_pass_keeps_every_index() {
    let ops = lex(b"[-][--][-", true, false);
    let out = interp_6::clear_pass(&ops);
    assert_eq!(
        out,
        vec![
            Op::Zero,
            Op::Zero,
            Op::Zero,
            Op::LBrack(PENDING),
            Op::Sub(2),
            Op::RBrack(PENDING),
            Op::LBrack(PENDING),
            Op::Sub(1),
        ]
    );
}
