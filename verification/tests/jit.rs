use bfjit::errors::{CompileError, RunError};
use bfjit::jit::image::Image;
use bfjit::jit::jit::Arch;
use bfjit::jit::labels::allocate_labels;
use bfjit::jit::plan::Instr;
use bfjit::jit::{aarch64_jit, jit, x64_jit};
use bfjit::machine::{drive, Outcome};
use bfjit::ops::Op;
use dynasmrt::components::LabelRegistry;

const FUEL: u64 = 50_000_000;

const HELLO: &str = "something something ++++++++++[>+++++++>++++++++++>+++>+<<<<-]>++.>+hello there.+++++++..+++.>++.<<+++++++++++++++.>.+++.------.--------.>+.>.[-]";

const HELLO_HELL_STR: &str = r#"[
    This routine is a demonstration of checking for the three cell sizes
    that are normal for Brainfuck. The demo code also checks for bugs
    that have been noted in various interpreters and compilers.

    It should print one of three slight variations of "Hello world" followed
    by an exclamation point then the maximum cell value (if it's less than a
    few thousand) and a newline.

    If the interpreter is broken in some way it can print a lot of other
    different strings and frequently causes the interpreter to crash.

    It does work correctly with 'bignum' cells.
]
+>>

	This code runs at pointer offset two and unknown bit width; don't
	assume you have more that eight bits

	======= DEMO CODE =======
	First just print "Hello"

	Notice that I reset the cells despite knowing that they are zero
	this is a test for proper functioning of the ability to skip over
	a loop that's never executed but isn't actually a comment loop

	Secondly there's a NOP movement between the two 'l' characters

	Also there's some commented out code afterwards

	>[-]<[-]++++++++[->+++++++++<]>.----[--<+++>]<-.+++++++.><.+++.
	[-][[-]>[-]+++++++++[<+++++>-]<+...--------------.>++++++++++[<+
	++++>-]<.+++.-------.>+++++++++[<----->-]<.-.>++++++++[<+++++++>
	-]<++.-----------.--.-----------.+++++++.----.++++++++++++++.>++
	++++++++[<----->-]<..[-]++++++++++.[-]+++++++[.,]-]

	===== END DEMO CODE =====
<<-

Calculate the value 256 and test if it's zero
If the interpreter errors on overflow this is where it'll happen
++++++++[>++++++++<-]>[<++++>-]
+<[>-<
Multiply by 256 again to get 65536
[>++++<-]>[<++++++++>-]<[>++++++++<-]
+>[>
	Cells should be 32bits at this point

	The pointer is at cell two and you can continue your code confident
	that there are big cells

	======= DEMO CODE =======
	This code rechecks that the test cells are in fact nonzero
	If the compiler notices the above is constant but doesn't
	properly wrap the values this will generate an incorrect
	string

	An optimisation barrier; unbalanced loops aren't easy
	>+[<]>-<

	Print a message
	++>[-]++++++[<+++++++>-]<.------------.[-]
	<[>+<[-]]>
	++++++++>[-]++++++++++[<+++++++++++>-]<.--------.+++.------.
	--------.[-]

	===== END DEMO CODE =====

<[-]<[-]>] <[>>
	Cells should be 16bits at this point

	The pointer is at cell two and you can continue your code confident
	that there are medium sized cells; you can use all the cells on the
	tape but it is recommended that you leave the first two alone

	If you need 32bit cells you'll have to use a BF doubler

	======= DEMO CODE =======
	Space
	++>[-]+++++[<++++++>-]<.[-]

	I'm rechecking that the cells are 16 bits
	this condition should always be true

	+>>++++[-<<[->++++<]>[-<+>]>]< + <[ >>

	    Print a message
	    >[-]++++++++++[<+++++++++++>-]<+++++++++.--------.
	    +++.------.--------.[-]

	<[-]<[-] ] >[> > Dead code here
	    This should never be executed because it's in an 8bit zone hidden
	    within a 16bit zone; a really good compiler should delete this
	    If you see this message you have dead code walking

	    Print a message
	    [-]>[-]+++++++++[<++++++++++>-]<.
	    >++++[<+++++>-]<+.--.-----------.+++++++.----.
	    [-]

	<<[-]]<
	===== END DEMO CODE =====

<<[-]] >[-]< ] >[>
	Cells should be 8bits at this point

	The pointer is at cell two but you only have 8 bits cells
	and it's time to use the really big and slow BF quad encoding

	======= DEMO CODE =======

	A broken wrapping check
	+++++[>++++<-]>[<+++++++++++++>-]<----[[-]>[-]+++++[<++++++>-]<++.
	>+++++[<+++++++>-]<.>++++++[<+++++++>-]<+++++.>++++[<---->-]<-.++.
	++++++++.------.-.[-]]

	Space
	++>[-]+++++[<++++++>-]<.[-]

	An exponent checker for github user btzy
	>++[>++<-]>[<<+>>[-<<[>++++<-]>[<++++>-]>]]<<[>++++[>---<++++]>++.
	[<++>+]<.[>+<------]>.+++.[<--->++]<--.[-]<[-]]

        Another dead code check
        [-]>[-]>[-]<++[>++++++++<-]>[<++++++++>-]<[>++++++++<-]>[<++++++++>-
        ]<[<++++++++>-]<[[-]>[-]+++++++++[<++++++++++>-]<.>++++[<+++++>-]<+.
        --.-----------.+++++++.----.>>[-]<+++++[>++++++<-]>++.<<[-]]

	Print a message
	[-] <[>+<[-]]> +++++>[-]+++++++++[<+++++++++>-]<.
	>++++[<++++++>-]<.+++.------.--------.
	[-]
	===== END DEMO CODE =====

<[-]]<

+[[>]<-]    Check unbalanced loops are ok

>>
	======= DEMO CODE =======
	Back out and print the last two characters

	[<[[<[[<[[<[,]]]<]<]<]<][ Deep nesting non-comment comment loop ]]

	Check that an offset of 128 will work
	+>>>>>>>>>>>>>>>>>>>>>>>>>>>>>>>>>>>>>>>>>>>>>>>>>>>>>>>>>>>>>>>>>>>
	>>>>>>>>>>>>>>>>>>>>>>>>>>>>>>>>>>>>>>>>>>>>>>>>>>>>>>>>>>>>>-[+<-]

	And back
	+++[->++++++<]>[-<+++++++>]<[->>[>]+[<]<]>>[->]<<<<<<<<<<<<<<<<<<<<<
	<<<<<<<<<<<<<<<<<<<<<<<<<<<<<<<<<<<<<<<<<<<<<<<<<<<<<<<<<<<<<<<<<<<<
	<<<<<<<<<<<<<<<<<<<<<<<<<<<<<<<<<<<<<<<

	And inside a loop
	--[>>>>>>>>>>>>>>>>>>>>>>>>>>>>>>>>>>>>>>>>>>>>>>>>>>>>>>>>>>>>>>>>>
	>>>>>>>>>>>>>>>>>>>>>>>>>>>>>>>>>>>>>>>>>>>>>>>>>>>>>>>>>>>>>>>++<<<
	<<<<<<<<<<<<<<<<<<<<<<<<<<<<<<<<<<<<<<<<<<<<<<<<<<<<<<<<<<<<<<<<<<<<
	<<<<<<<<<<<<<<<<<<<<<<<<<<<<<<<<<<<<<<<<<<<<<<<<<<<<<<<<<+]+>----[++
	++>----]-[+<-]

	This is a simple multiply loop that looks like it goes off the
	start of the tape
	+[>]<- [-
	    <<<<<<<<<<<<<<<<<<<<<<<<<<<<<<<<<<<<<<<<<<<<<<<<<<<<<<<<<<<<<<<<
	    <<<<<<<<<<<<<<<<<<<<<<<<<<<<<<<<<<<<<<<<<<<<<<<<<<<<<<<<<<<<<<<<
	    <<<<<<<<<<<<<<<<<<<<<<<<<<<<<<<<<<<<<<<<<<<<<<<<<<<<<<<<<<<<<<<<
	    <<<<<<<<<<<<<<<<<<<<<<<<<<<<<<<<<<<<<<<<<<<<<<<<<<<<<<<<<<<<<<<<
	    <<<<<<<<<<<<<<<<<<<<<<<<<<<<<<<<<<<<<<<<<<<<<<<<<<<<<<<<<<<<<<<<
	    <<<<<<<<<<<<<<<<<<<<<<<<<<<<<<<<<<<<<<<<<<<<<<<<<<<<<<<<<<<<<<<<
	    ++++
	    >>>>>>>>>>>>>>>>>>>>>>>>>>>>>>>>>>>>>>>>>>>>>>>>>>>>>>>>>>>>>>>>
	    >>>>>>>>>>>>>>>>>>>>>>>>>>>>>>>>>>>>>>>>>>>>>>>>>>>>>>>>>>>>>>>>
	    >>>>>>>>>>>>>>>>>>>>>>>>>>>>>>>>>>>>>>>>>>>>>>>>>>>>>>>>>>>>>>>>
	    >>>>>>>>>>>>>>>>>>>>>>>>>>>>>>>>>>>>>>>>>>>>>>>>>>>>>>>>>>>>>>>>
	    >>>>>>>>>>>>>>>>>>>>>>>>>>>>>>>>>>>>>>>>>>>>>>>>>>>>>>>>>>>>>>>>
	    >>>>>>>>>>>>>>>>>>>>>>>>>>>>>>>>>>>>>>>>>>>>>>>>>>>>>>>>>>>>>>>>
	]

	[ Check there are enough cells. This takes 18569597 steps. ]
	[
	    >++++++[<+++>-]<+[>+++++++++<-]>+[[->+>+<<]>>
	    [-<<+>>]<[<[->>+<<]+>[->>+<<]+[>]<-]<-]<[-<]
	]

	This loop is a bug check for handling of nested loops; it goes
	round the outer loop twice and the inner loop is skipped on the
	first pass but run on the second

	BTW: It's unlikely that an optimiser will notice how this works

	>
	    +[>[
		Print the exclamation point
		[-]+++>
		[-]+++++ +#-
		[<+++2+++>-]<
		.

	    <[-]>[-]]+<]
	<

	Clean up any debris
	++++++++[[>]+[<]>-]>[>]<[[-]<]

	This is a hard optimisation barrier
	It contains several difficult to 'prove' constructions close together
	and is likely to prevent almost all forms of optimisation
	+[[>]<-[,]+[>]<-[]]

	This part finds the actual value that the cell wraps at; even
	if it's not one of the standard ones; but it gets bored after
	a few thousand: any higher and we print nothing

	This has a reasonably deep nested loop and a couple of loops
	that have unbalanced pointer movements

	Find maxint (if small)
	[-]>[-]>[-]>[-]>[-]>[-]>[-]>[-]<<<<<<<++++[->>++++>>++++>>++
	++<<<<<<]++++++++++++++>>>>+>>++<<<<<<[->>[->+>[->+>[->+>+[>
	>>+<<]>>[-<<+>]<-[<<<[-]<<[-]<<[-]<<[-]>>>[-]>>[-]>>[-]>->+]
	<<<]>[-<+>]<<<]>[-<+>]<<<]>[-<+>]<<<]>+>[[-]<->]<[->>>>>>>[-
	<<<<<<<<+>>>>>>>>]<<<<<<<]<

	The number is only printed if we found the actual maxint
	>+<[
	    Space
	    >[-]>[-]+++++[<++++++>-]<++.[-]<

	    Print the number
	    [[->>+<<]>>[-<++>[-<+>[-<+>[-<+>[-<+>[-<+>[-<+>[-<+>[-<+>[<[-]+>
	    ->+<[<-]]]]]]]]]]>]<<[>++++++[<++++++++>-]<-.[-]<]]

	]

	Check if we should have had a value but didn't
	>[
	    >[-]>[-]++++[<++++++++>-]<[<++++++++>-]>+++[<++++++++>-]<+++++++
	    [<-------->-]<------->+<[[-]>-<]>[>[-]<[-]++++[->++++++++<]>.+++
	    +++[-<++>]<.[-->+++<]>++.<++++[>----<-]>.[-]<]<

	    [-]>[-]++++++++[<++++++++>-]<[>++++<-]+>[<->[-]]<[>[-]<[-]++++[-
	    >++++++++<]>.---[-<+++>]<.---.--------------.[-->+<]>--.[-]<]
	]<

	Clean up any debris
	++++++++[[>]+[<]>-]>[>]<[[-]<]

	One last thing: an exclamation point is not a valid BF instruction!

	Print the newline
	[-]++++++++++.[-]
	[
	    Oh, and now that I can use "!" the string you see should be one of:
	    Hello World! 255
	    Hello world! 65535
	    Hello, world!

	    And it should be followed by a newline.
	]

	===== END DEMO CODE =====

<<  Finish at cell zero"#;

fn prints_hello(o: Outcome) {
    match o.result {
        Ok(_) => {}
        Err(e) => panic!("Error running program: {:?}", e),
    }
    assert_eq!(String::from_utf8(o.output).unwrap(), "Hello World!\n");
}

fn prints_hell(o: Outcome) {
    match o.result {
        Ok(_) => {}
        Err(e) => panic!("Error running program: {:?}", e),
    }
    let c = String::from_utf8(o.output).unwrap();
    match c.as_str() {
        "Hello World! 255\n" => {}
        "Hello world! 65535\n" => {}
        "Hello, world!\n" => {}
        _ => panic!("Test failed, content: {}", c),
    }
}

#[test]
fn x64_jit_hello() {
    prints_hello(x64_jit::run(HELLO.as_bytes(), &[], FUEL));
}

#[test]
fn x64_jit_hello_hell() {
    prints_hell(x64_jit::run(HELLO_HELL_STR.as_bytes(), &[], FUEL));
}

#[test]
fn aarch64_jit_hello() {
    prints_hello(aarch64_jit::run(HELLO.as_bytes(), &[], FUEL));
}

#[test]
fn aarch64_jit_hello_hell() {
    prints_hell(aarch64_jit::run(HELLO_HELL_STR.as_bytes(), &[], FUEL));
}

#[test]
fn it_works() {
    prints_hello(jit::run(Arch::X64, HELLO.as_bytes(), &[], FUEL));
    prints_hello(jit::run(Arch::Aarch64, HELLO.as_bytes(), &[], FUEL));
}

#[test]
fn unsupported_architecture_is_an_error() {
    let o = jit::run(Arch::Other, HELLO.as_bytes(), &[], FUEL);
    assert_eq!(o.result, Err(RunError::UnsupportedArch));
    assert!(o.output.is_empty());
    assert_eq!(o.consumed, 0);
}

#[test]
fn back_end_front_end_fuses_and_never_fails() {
    assert_eq!(
        x64_jit::parse(b"+++ x [-] ] [ << >").unwrap(),
        vec![
            Op::Add(3),
            Op::Zero,
            Op::RBrack(usize::MAX),
            Op::LBrack(usize::MAX),
            Op::Left(2),
            Op::Right(1),
        ]
    );
    assert_eq!(aarch64_jit::parse(b"").unwrap(), vec![]);
}

#[test]
fn plan_is_exact() {
    let p = x64_jit::compile(b"+[>,.[-]<-]--").unwrap();
    assert_eq!(p.loop_count(), 1);
    assert_eq!(p.entry(), 0);
    assert_eq!(
        p.instructions().clone(),
        vec![
            Instr::Enter,
            Instr::AddCell(1),
            Instr::LoopHead(0),
            Instr::Advance(1),
            Instr::Get,
            Instr::Put,
            Instr::ClearCell,
            Instr::Retreat(1),
            Instr::SubCell(1),
            Instr::LoopTail(0),
            Instr::SubCell(2),
            Instr::Leave,
        ]
    );
}

#[test]
fn loops_are_numbered_in_opening_order() {
    let p = aarch64_jit::compile(b"[[]][]").unwrap();
    assert_eq!(p.loop_count(), 3);
    assert_eq!(
        p.instructions().clone(),
        vec![
            Instr::Enter,
            Instr::LoopHead(0),
            Instr::LoopHead(1),
            Instr::LoopTail(1),
            Instr::LoopTail(0),
            Instr::LoopHead(2),
            Instr::LoopTail(2),
            Instr::Leave,
        ]
    );
}

#[test]
fn compile_refuses_unbalanced_loops() {
    assert_eq!(x64_jit::compile(b"[[]").err(), Some(CompileError::UnmatchedOpen));
    assert_eq!(x64_jit::compile(b"[]]").err(), Some(CompileError::UnmatchedClose));
    assert_eq!(aarch64_jit::compile(b"][").err(), Some(CompileError::UnmatchedClose));
    assert_eq!(aarch64_jit::compile(b"+[").err(), Some(CompileError::UnmatchedOpen));
    assert!(x64_jit::compile(b"").is_ok());
}

#[test]
fn compiling_twice_gives_the_same_plan() {
    let a = x64_jit::compile(HELLO.as_bytes()).unwrap();
    let b = x64_jit::compile(HELLO.as_bytes()).unwrap();
    assert_eq!(a.instructions(), b.instructions());
    assert_eq!(a.loop_count(), b.loop_count());
}

#[test]
fn long_move_is_split_at_the_immediate_limit() {
    let n = aarch64_jit::MOVE_LIMIT as usize + 5;
    let src = vec![b'>'; n];
    let p = aarch64_jit::compile(&src).unwrap();
    assert_eq!(
        p.instructions().clone(),
        vec![Instr::Enter, Instr::Advance(aarch64_jit::MOVE_LIMIT), Instr::Advance(5), Instr::Leave]
    );
    let q = x64_jit::compile(&src).unwrap();
    assert_eq!(
        q.instructions().clone(),
        vec![Instr::Enter, Instr::Advance(n as u32), Instr::Leave]
    );
}

#[test]
fn move_immediates_split_into_twelve_bit_halves() {
    assert_eq!(aarch64_jit::split_move(0), (0, 0));
    assert_eq!(aarch64_jit::split_move(4095), (4095, 0));
    assert_eq!(aarch64_jit::split_move(4096), (0, 1));
    assert_eq!(aarch64_jit::split_move(30000), (30000 - 7 * 4096, 7));
    assert_eq!(aarch64_jit::split_move(aarch64_jit::MOVE_LIMIT), (4095, 4095));
}

#[test]
fn statuses_are_read_per_architecture() {
    assert_eq!(x64_jit::outcome(0), Ok(()));
    assert_eq!(x64_jit::outcome(1), Err(RunError::Io));
    assert_eq!(x64_jit::outcome(2), Err(RunError::Memory));
    assert_eq!(x64_jit::outcome(7), Err(RunError::Unknown(7)));
    assert_eq!(aarch64_jit::outcome(0), Ok(()));
    assert_eq!(aarch64_jit::outcome(1), Err(RunError::Memory));
    assert_eq!(aarch64_jit::outcome(2), Err(RunError::Io));
    assert_eq!(aarch64_jit::outcome(255), Err(RunError::Unknown(255)));
}

#[test]
fn image_runs_from_the_entry() {
    let p = x64_jit::compile(b"++>+++<.>.").unwrap();
    let image = Image::finalize(p);
    let (image, o) = drive(image, &[], 100);
    assert_eq!(o.result, Ok(()));
    assert_eq!(o.output, vec![2, 3]);
    assert_eq!(image.tape().pointer(), 1);
    assert_eq!(image.tape().get(), 3);
}

#[test]
fn every_loop_gets_two_fresh_labels() {
    let mut registry = LabelRegistry::new();
    let taken = registry.new_dynamic_label();
    assert_eq!(taken.get_id(), 0);
    let p = x64_jit::compile(b"[[]][]").unwrap();
    let pairs = allocate_labels(&mut registry, &p);
    assert_eq!(pairs.len(), 3);
    for (id, (entry, exit)) in pairs.iter().enumerate() {
        assert_eq!(entry.get_id(), 1 + 2 * id);
        assert_eq!(exit.get_id(), 2 + 2 * id);
    }
    assert_eq!(registry.new_dynamic_label().get_id(), 7);
}

#[test]
fn a_plan_without_loops_needs_no_labels() {
    let mut registry = LabelRegistry::new();
    let p = aarch64_jit::compile(b"+++.").unwrap();
    assert!(allocate_labels(&mut registry, &p).is_empty());
    assert_eq!(registry.new_dynamic_label().get_id(), 0);
}
