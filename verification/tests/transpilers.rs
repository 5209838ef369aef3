use bfjit::transpiler::{bf2c, bf2js};

const C_HEADER: &str = "#include <stdio.h>\nint main() {\n    char array[30000] = {0};\n    char *ptr = array;\n";
const C_FOOTER: &str = "    return 0;\n}\n";
const JS_HEADER: &str = "const memory = new Uint8Array(30000);\nlet pointer = 0;\nconst input = [];\nlet output = '';\nconst readInput = () => input.shift().charCodeAt(0);\nconst writeOutput = (charCode) => { output += String.fromCharCode(charCode); };\n// Brainfuck program start\n";
const JS_FOOTER: &str = "console.log(output);\n";

#[test]
fn empty_source_gives_the_frame_in_c() {
    assert_eq!(bf2c::transpile_to_string(b""), format!("{}{}", C_HEADER, C_FOOTER));
}

#[test]
fn every_instruction_has_its_statement_in_c() {
    let body = "    ++ptr;\n    --ptr;\n    ++*ptr;\n    --*ptr;\n    putchar(*ptr);\n    *ptr = getchar();\n    while (*ptr) {\n    }\n";
    assert_eq!(bf2c::transpile_to_string(b"><+-.,[]"), format!("{}{}{}", C_HEADER, body, C_FOOTER));
}

#[test]
fn other_bytes_leave_nothing_in_c() {
    assert_eq!(
        bf2c::transpile_to_string(b"a+b\n"),
        format!("{}{}{}", C_HEADER, "    ++*ptr;\n", C_FOOTER)
    );
}

#[test]
fn empty_source_gives_the_frame_in_js() {
    assert_eq!(bf2js::transpile_to_string(b""), format!("{}{}", JS_HEADER, JS_FOOTER));
}

#[test]
fn every_instruction_has_its_statement_in_js() {
    let body = "pointer++;\npointer--;\nmemory[pointer]++;\nmemory[pointer]--;\nwriteOutput(memory[pointer]);\nmemory[pointer] = readInput();\nwhile (memory[pointer] !== 0) {\n}\n";
    assert_eq!(
        bf2js::transpile_to_string(b"><+-.,[]"),
        format!("{}{}{}", JS_HEADER, body, JS_FOOTER)
    );
}

#[test]
fn other_bytes_are_copied_behind_a_comment_mark_in_js() {
    assert_eq!(
        bf2js::transpile_to_string(b"ab+c"),
        format!("{}{}{}", JS_HEADER, "//ab\nmemory[pointer]++;\n//c\n", JS_FOOTER)
    );
}

#[test]
fn bytes_above_ascii_become_one_character_each_in_js() {
    let out = bf2js::transpile_to_string(&[0xE9]);
    assert_eq!(out, format!("{}//{}\n{}", JS_HEADER, '\u{e9}', JS_FOOTER));
}

#[test]
fn a_comment_never_swallows_a_statement_in_js() {
    let out = bf2js::transpile_to_string(b"a+");
    assert_eq!(out, format!("{}//a\nmemory[pointer]++;\n{}", JS_HEADER, JS_FOOTER));
    assert!(out.lines().any(|l| l == "memory[pointer]++;"));
}

#[test]
fn a_comment_never_swallows_the_last_line_in_js() {
    let out = bf2js::transpile_to_string(b"+c");
    assert_eq!(out, format!("{}memory[pointer]++;\n//c\n{}", JS_HEADER, JS_FOOTER));
    assert_eq!(out.lines().last(), Some("console.log(output);"));
}

#[test]
fn a_line_break_in_commentary_ends_the_comment_in_js() {
    assert_eq!(
        bf2js::transpile_to_string(b"a\nb\r\nc+\n\n-"),
        format!(
            "{}{}{}",
            JS_HEADER, "//a\n//b\n//c\nmemory[pointer]++;\nmemory[pointer]--;\n", JS_FOOTER
        )
    );
    assert_eq!(bf2js::transpile_to_string(b"\n\r\n"), format!("{}{}", JS_HEADER, JS_FOOTER));
}

fn code_lines(program: &str) -> Vec<String> {
    program
        .strip_prefix(JS_HEADER)
        .unwrap()
        .lines()
        .filter(|l| !l.starts_with("//"))
        .map(|l| l.to_string())
        .collect()
}

#[test]
fn commentary_changes_no_statement_in_js() {
    let with = bf2js::transpile_to_string(b"set +++ then [ loop > . < - ] // done\nend , .");
    let without = bf2js::transpile_to_string(b"+++[>.<-],.");
    assert_eq!(code_lines(&with), code_lines(&without));
    assert_eq!(code_lines(&without).len(), 12);
}
