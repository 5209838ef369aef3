use vstd::prelude::*;
use vstd::string::StringExecFns;
use crate::bf_types::{CH_ADD, CH_CLOSE, CH_IN, CH_LEFT, CH_OPEN, CH_OUT, CH_RIGHT, CH_SUB};

verus! {

/// The lines before the first statement.
pub open spec fn c_header() -> Seq<char> {
    "#include <stdio.h>\n"@ + "int main() {\n"@ + "    char array[30000] = {0};\n"@
        + "    char *ptr = array;\n"@
}

/// The lines after the last statement.
pub open spec fn c_footer() -> Seq<char> {
    "    return 0;\n"@ + "}\n"@
}

/// The C statement for one source byte; nothing for a byte that is no instruction.
pub open spec fn c_snippet(c: u8) -> Seq<char> {
    if c == CH_RIGHT {
        "    ++ptr;\n"@
    } else if c == CH_LEFT {
        "    --ptr;\n"@
    } else if c == CH_ADD {
        "    ++*ptr;\n"@
    } else if c == CH_SUB {
        "    --*ptr;\n"@
    } else if c == CH_OUT {
        "    putchar(*ptr);\n"@
    } else if c == CH_IN {
        "    *ptr = getchar();\n"@
    } else if c == CH_OPEN {
        "    while (*ptr) {\n"@
    } else if c == CH_CLOSE {
        "    }\n"@
    } else {
        Seq::empty()
    }
}

/// The statements for the first `n` source bytes, in order.
pub open spec fn c_body(src: Seq<u8>, n: int) -> Seq<char>
    decreases n,
{
    if n <= 0 {
        Seq::empty()
    } else {
        c_body(src, n - 1) + c_snippet(src[n - 1])
    }
}

/// The whole C program for a source text.
pub open spec fn c_program(src: Seq<u8>) -> Seq<char> {
    c_header() + c_body(src, src.len() as int) + c_footer()
}

/// Writes the C program that does what `bf_src` does: a fixed header, one
/// statement per instruction byte in source order, and a fixed footer.
pub fn transpile_to_string(bf_src: &[u8]) -> (c_program: String)
    ensures
        c_program@ == self::c_program(bf_src@),
{
    let mut out = String::new();
    out.append("#include <stdio.h>\n");
    out.append("int main() {\n");
    out.append("    char array[30000] = {0};\n");
    out.append("    char *ptr = array;\n");
    assert(out@ =~= c_header());
    let mut i: usize = 0;
    while i < bf_src.len()
        invariant
            i <= bf_src.len(),
            out@ == c_header() + c_body(bf_src@, i as int),
        decreases bf_src.len() - i,
    {
        let command = bf_src[i];
        let ghost before = out@;
        if command == CH_RIGHT {
            out.append("    ++ptr;\n");
        } else if command == CH_LEFT {
            out.append("    --ptr;\n");
        } else if command == CH_ADD {
            out.append("    ++*ptr;\n");
        } else if command == CH_SUB {
            out.append("    --*ptr;\n");
        } else if command == CH_OUT {
            out.append("    putchar(*ptr);\n");
        } else if command == CH_IN {
            out.append("    *ptr = getchar();\n");
        } else if command == CH_OPEN {
            out.append("    while (*ptr) {\n");
        } else if command == CH_CLOSE {
            out.append("    }\n");
        }
        assert(out@ =~= before + c_snippet(command));
        assert(out@ =~= c_header() + c_body(bf_src@, i + 1));
        i += 1;
    }
    let ghost body = out@;
    out.append("    return 0;\n");
    out.append("}\n");
    assert(out@ =~= body + c_footer());
    out
}

} // verus!
