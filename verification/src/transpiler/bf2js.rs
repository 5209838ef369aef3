use vstd::prelude::*;
use vstd::string::StringExecFns;
use crate::bf_types::{CH_ADD, CH_CLOSE, CH_IN, CH_LEFT, CH_OPEN, CH_OUT, CH_RIGHT, CH_SUB, is_command};

verus! {

/// `String::push` appends one character to the end of the string.
pub assume_specification[ String::push ](s: &mut String, ch: char)
    ensures
        final(s)@ == old(s)@.push(ch),
;

/// The line feed byte.
pub const LINE_FEED: u8 = 10;

/// The carriage return byte.
pub const CARRIAGE_RETURN: u8 = 13;

/// The lines before the first statement.
pub open spec fn js_header() -> Seq<char> {
    "const memory = new Uint8Array(30000);\nlet pointer = 0;\nconst input = [];\nlet output = '';\nconst readInput = () => input.shift().charCodeAt(0);\nconst writeOutput = (charCode) => { output += String.fromCharCode(charCode); };\n// Brainfuck program start\n"@
}

/// The line after the last statement.
pub open spec fn js_footer() -> Seq<char> {
    "console.log(output);\n"@
}

/// The JavaScript statement for an instruction byte, as one whole line.
pub open spec fn js_snippet(c: u8) -> Seq<char> {
    if c == CH_RIGHT {
        "pointer++;\n"@
    } else if c == CH_LEFT {
        "pointer--;\n"@
    } else if c == CH_ADD {
        "memory[pointer]++;\n"@
    } else if c == CH_SUB {
        "memory[pointer]--;\n"@
    } else if c == CH_OUT {
        "writeOutput(memory[pointer]);\n"@
    } else if c == CH_IN {
        "memory[pointer] = readInput();\n"@
    } else if c == CH_OPEN {
        "while (memory[pointer] !== 0) {\n"@
    } else {
        "}\n"@
    }
}

/// A byte that ends a line of JavaScript.
pub open spec fn is_line_break(c: u8) -> bool {
    c == LINE_FEED || c == CARRIAGE_RETURN
}

/// A byte of commentary that is copied into a comment: neither an
/// instruction nor a line break.
pub open spec fn is_remark(c: u8) -> bool {
    !is_command(c) && !is_line_break(c)
}

/// Length of the stretch of remark bytes that starts at `i`.
pub open spec fn remark_len(src: Seq<u8>, i: int) -> nat
    decreases src.len() - i,
{
    if 0 <= i < src.len() && is_remark(src[i]) {
        1 + remark_len(src, i + 1)
    } else {
        0
    }
}

/// The `n` bytes from `i` on, each as the character with its number.
pub open spec fn remark_text(src: Seq<u8>, i: int, n: nat) -> Seq<char> {
    Seq::new(n, |k: int| src[i + k] as char)
}

/// One line of the generated program.
pub enum Line {
    /// A comment that holds a stretch of commentary.
    Remark(Seq<char>),
    /// The statement of an instruction byte.
    Statement(u8),
}

/// A stretch of remark bytes ends inside the source.
pub proof fn lemma_remark_len_bound(src: Seq<u8>, i: int)
    requires
        0 <= i <= src.len(),
    ensures
        i + remark_len(src, i) <= src.len(),
        forall|k: int| i <= k < i + remark_len(src, i) ==> is_remark(#[trigger] src[k]),
    decreases src.len() - i,
{
    if i < src.len() && is_remark(src[i]) {
        lemma_remark_len_bound(src, i + 1);
    }
}

/// The lines for the source from byte `i` on: a statement for every
/// instruction byte, a comment for every maximal stretch of remark bytes,
/// and nothing for a line break, which only ends a stretch.
pub open spec fn js_lines_from(src: Seq<u8>, i: int) -> Seq<Line>
    decreases src.len() - i,
{
    if i < 0 || i >= src.len() {
        Seq::empty()
    } else if is_command(src[i]) {
        seq![Line::Statement(src[i])] + js_lines_from(src, i + 1)
    } else if is_line_break(src[i]) {
        js_lines_from(src, i + 1)
    } else {
        let n = 1 + remark_len(src, i + 1);
        proof {
            lemma_remark_len_bound(src, i + 1);
        }
        seq![Line::Remark(remark_text(src, i, n))] + js_lines_from(src, i + n)
    }
}

/// The lines for a whole source.
pub open spec fn js_lines(src: Seq<u8>) -> Seq<Line> {
    js_lines_from(src, 0)
}

/// The text of one line. A comment is closed by a line feed, so that what
/// follows it starts a new line.
pub open spec fn render_line(l: Line) -> Seq<char> {
    match l {
        Line::Remark(t) => "//"@ + t + "\n"@,
        Line::Statement(c) => js_snippet(c),
    }
}

/// The text of lines, one after the other.
pub open spec fn render(lines: Seq<Line>) -> Seq<char>
    decreases lines.len(),
{
    if lines.len() == 0 {
        Seq::empty()
    } else {
        render_line(lines[0]) + render(lines.subrange(1, lines.len() as int))
    }
}

/// The whole JavaScript program for a source text.
pub open spec fn js_program(src: Seq<u8>) -> Seq<char> {
    js_header() + render(js_lines(src)) + js_footer()
}

/// The text of a line followed by more lines.
pub proof fn lemma_render_first(l: Line, rest: Seq<Line>)
    ensures
        render(seq![l] + rest) == render_line(l) + render(rest),
{
    let all = seq![l] + rest;
    assert(all.subrange(1, all.len() as int) =~= rest);
}

/// The instruction bytes among the lines, in order.
pub open spec fn statements(lines: Seq<Line>) -> Seq<u8>
    decreases lines.len(),
{
    if lines.len() == 0 {
        Seq::empty()
    } else {
        let rest = statements(lines.subrange(1, lines.len() as int));
        match lines[0] {
            Line::Statement(c) => seq![c] + rest,
            Line::Remark(_) => rest,
        }
    }
}

/// The instruction bytes of the source from byte `i` on, in order.
pub open spec fn commands_from(src: Seq<u8>, i: int) -> Seq<u8>
    decreases src.len() - i,
{
    if i < 0 || i >= src.len() {
        Seq::empty()
    } else if is_command(src[i]) {
        seq![src[i]] + commands_from(src, i + 1)
    } else {
        commands_from(src, i + 1)
    }
}

/// No character of a comment ends the comment.
pub open spec fn on_one_line(l: Line) -> bool {
    match l {
        Line::Remark(t) => t.len() >= 1 && forall|k: int|
            0 <= k < t.len() ==> #[trigger] t[k] != '\n' && t[k] != '\r',
        Line::Statement(c) => is_command(c),
    }
}

/// Over a stretch of remark bytes there is no instruction.
proof fn lemma_commands_skip(src: Seq<u8>, i: int, n: nat)
    requires
        0 <= i,
        i + n <= src.len(),
        forall|k: int| i <= k < i + n ==> !is_command(#[trigger] src[k]),
    ensures
        commands_from(src, i) == commands_from(src, i + n),
    decreases n,
{
    if n > 0 {
        lemma_commands_skip(src, i + 1, (n - 1) as nat);
    }
}

/// Commentary never changes the statements. The statements of the
/// generated program are those of the instruction bytes of the source, in
/// source order, whatever other bytes stand between them; and every comment
/// stays on its own line, so that no statement is ever part of one.
pub proof fn law_commentary_is_inert(src: Seq<u8>, i: int)
    requires
        0 <= i <= src.len(),
    ensures
        statements(js_lines_from(src, i)) == commands_from(src, i),
        forall|k: int|
            0 <= k < js_lines_from(src, i).len() ==> on_one_line(#[trigger] js_lines_from(src, i)[k]),
    decreases src.len() - i,
{
    let lines = js_lines_from(src, i);
    if i >= src.len() {
    } else if is_command(src[i]) {
        law_commentary_is_inert(src, i + 1);
        let rest = js_lines_from(src, i + 1);
        assert(lines.subrange(1, lines.len() as int) =~= rest);
        assert forall|k: int| 0 <= k < lines.len() implies on_one_line(#[trigger] lines[k]) by {
            if k > 0 {
                assert(lines[k] == rest[k - 1]);
            }
        }
    } else if is_line_break(src[i]) {
        law_commentary_is_inert(src, i + 1);
    } else {
        let n = 1 + remark_len(src, i + 1);
        lemma_remark_len_bound(src, i + 1);
        law_commentary_is_inert(src, i + n);
        let rest = js_lines_from(src, i + n);
        let text = remark_text(src, i, n);
        assert(lines.subrange(1, lines.len() as int) =~= rest);
        assert forall|k: int| i <= k < i + n implies !is_command(#[trigger] src[k]) by {
            if k > i {
                assert(is_remark(src[k]));
            }
        }
        lemma_commands_skip(src, i, n);
        assert forall|k: int| 0 <= k < text.len() implies #[trigger] text[k] != '\n' && text[k] != '\r' by {
            assert(is_remark(src[i + k]));
        }
        assert forall|k: int| 0 <= k < lines.len() implies on_one_line(#[trigger] lines[k]) by {
            if k > 0 {
                assert(lines[k] == rest[k - 1]);
            }
        }
    }
}

/// Every line is a whole line: its text ends in a line feed, and so does
/// the header. So each statement starts a line, and the comment before it,
/// if there is one, is over.
pub proof fn law_lines_are_whole(l: Line)
    requires
        on_one_line(l),
    ensures
        render_line(l).len() >= 1,
        render_line(l).last() == '\n',
        js_header().len() >= 1,
        js_header().last() == '\n',
{
    reveal_strlit("\n");
    reveal_strlit("//");
    reveal_strlit("pointer++;\n");
    reveal_strlit("pointer--;\n");
    reveal_strlit("memory[pointer]++;\n");
    reveal_strlit("memory[pointer]--;\n");
    reveal_strlit("writeOutput(memory[pointer]);\n");
    reveal_strlit("memory[pointer] = readInput();\n");
    reveal_strlit("while (memory[pointer] !== 0) {\n");
    reveal_strlit("}\n");
    reveal_strlit(
        "const memory = new Uint8Array(30000);\nlet pointer = 0;\nconst input = [];\nlet output = '';\nconst readInput = () => input.shift().charCodeAt(0);\nconst writeOutput = (charCode) => { output += String.fromCharCode(charCode); };\n// Brainfuck program start\n",
    );
}

/// Two sources with the same instructions give programs with the same
/// statements.
pub proof fn law_same_commands_same_statements(a: Seq<u8>, b: Seq<u8>)
    requires
        commands_from(a, 0) == commands_from(b, 0),
    ensures
        statements(js_lines(a)) == statements(js_lines(b)),
{
    law_commentary_is_inert(a, 0);
    law_commentary_is_inert(b, 0);
}

/// End of the stretch of remark bytes that starts at `i`.
fn remark_end(src: &[u8], i: usize) -> (j: usize)
    requires
        i < src.len(),
        is_remark(src[i as int]),
    ensures
        j == i + 1 + remark_len(src@, i + 1),
        j <= src.len(),
{
    let mut j: usize = i + 1;
    while j < src.len() && !is_instruction(src[j]) && src[j] != LINE_FEED && src[j] != CARRIAGE_RETURN
        invariant
            i < j <= src.len(),
            remark_len(src@, i + 1) == (j - i - 1) + remark_len(src@, j as int),
        decreases src.len() - j,
    {
        j += 1;
    }
    j
}

/// Whether a byte is one of the eight instructions.
fn is_instruction(c: u8) -> (b: bool)
    ensures
        b == is_command(c),
{
    c == CH_RIGHT || c == CH_LEFT || c == CH_ADD || c == CH_SUB || c == CH_OUT || c == CH_IN || c
        == CH_OPEN || c == CH_CLOSE
}

/// Appends the statement of an instruction byte.
fn push_statement(out: &mut String, command: u8)
    requires
        is_command(command),
    ensures
        final(out)@ == old(out)@ + js_snippet(command),
{
    if command == CH_RIGHT {
        out.append("pointer++;\n");
    } else if command == CH_LEFT {
        out.append("pointer--;\n");
    } else if command == CH_ADD {
        out.append("memory[pointer]++;\n");
    } else if command == CH_SUB {
        out.append("memory[pointer]--;\n");
    } else if command == CH_OUT {
        out.append("writeOutput(memory[pointer]);\n");
    } else if command == CH_IN {
        out.append("memory[pointer] = readInput();\n");
    } else if command == CH_OPEN {
        out.append("while (memory[pointer] !== 0) {\n");
    } else {
        out.append("}\n");
    }
}

/// Appends the comment line that holds the bytes from `i` up to `j`.
fn push_remark(out: &mut String, src: &[u8], i: usize, j: usize)
    requires
        i < j <= src.len(),
    ensures
        final(out)@ == old(out)@ + render_line(
            Line::Remark(remark_text(src@, i as int, (j - i) as nat)),
        ),
{
    out.append("//");
    let ghost start = out@;
    let mut k: usize = i;
    while k < j
        invariant
            i <= k <= j <= src.len(),
            out@ == start + remark_text(src@, i as int, (k - i) as nat),
        decreases j - k,
    {
        let ghost before = out@;
        out.push(src[k] as char);
        assert(out@ =~= start + remark_text(src@, i as int, (k + 1 - i) as nat));
        k += 1;
    }
    out.append("\n");
    assert(out@ =~= old(out)@ + render_line(
        Line::Remark(remark_text(src@, i as int, (j - i) as nat)),
    ));
}

/// Writes the JavaScript program for `bf_src`: a fixed header, one statement
/// per instruction byte in source order, each on a line of its own, and a
/// fixed last line.
///
/// Every other byte is commentary and never changes a statement. A stretch
/// of such bytes is copied into one `//` comment, which is closed by a line
/// feed before anything else is written; a line feed or carriage return in
/// the source ends a stretch and is not copied.
pub fn transpile_to_string(bf_src: &[u8]) -> (js_code: String)
    ensures
        js_code@ == js_program(bf_src@),
{
    let mut out = String::from_str(
        "const memory = new Uint8Array(30000);\nlet pointer = 0;\nconst input = [];\nlet output = '';\nconst readInput = () => input.shift().charCodeAt(0);\nconst writeOutput = (charCode) => { output += String.fromCharCode(charCode); };\n// Brainfuck program start\n",
    );
    let mut i: usize = 0;
    assert(out@ + render(js_lines_from(bf_src@, 0)) =~= js_header() + render(js_lines(bf_src@)));
    while i < bf_src.len()
        invariant
            i <= bf_src.len(),
            out@ + render(js_lines_from(bf_src@, i as int)) == js_header() + render(
                js_lines(bf_src@),
            ),
        decreases bf_src.len() - i,
    {
        let command = bf_src[i];
        let ghost before = out@;
        let ghost here = render(js_lines_from(bf_src@, i as int));
        let mut next: usize = i + 1;
        if is_instruction(command) {
            push_statement(&mut out, command);
            proof {
                lemma_render_first(Line::Statement(command), js_lines_from(bf_src@, i + 1));
            }
        } else if command == LINE_FEED || command == CARRIAGE_RETURN {
        } else {
            next = remark_end(bf_src, i);
            push_remark(&mut out, bf_src, i, next);
            proof {
                lemma_render_first(
                    Line::Remark(remark_text(bf_src@, i as int, (next - i) as nat)),
                    js_lines_from(bf_src@, next as int),
                );
            }
        }
        assert(out@ + render(js_lines_from(bf_src@, next as int)) =~= before + here);
        i = next;
    }
    assert(render(js_lines_from(bf_src@, i as int)) =~= Seq::<char>::empty());
    assert(out@ =~= js_header() + render(js_lines(bf_src@)));
    out.append("console.log(output);\n");
    out
}

} // verus!
