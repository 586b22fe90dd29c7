//! The whole engine in one call: parse, compile, run.

use vstd::prelude::*;
use crate::compiler::{compile, compile_spec};
use crate::correctness::lemma_accepts_iff_spans;
use crate::evaluator::{accepts, eval};
use crate::language::spans;
use crate::parser::{parse, parse_spec, SyntaxError};

verus! {

/// The characters of `line`, in order.
pub fn chars_of(line: &str) -> (chars: Vec<char>)
    ensures
        chars@ == line@,
{
    let mut chars: Vec<char> = Vec::new();
    for c in it: line.chars()
        invariant
            it.seq() == line@,
            chars@ == line@.subrange(0, it.index()),
    {
        chars.push(c);
        assert(chars@ =~= line@.subrange(0, it.index() + 1));
    }
    assert(chars@ =~= line@);
    chars
}

/// Whether `pattern` matches at the start of `line`: whether it denotes
/// some stretch of `line` that begins with the first character. The rest of
/// `line` may be anything. A pattern that cannot be parsed gives its error.
pub fn pattern_match(pattern: &str, line: &str) -> (result: Result<bool, SyntaxError>)
    ensures
        match parse_spec(pattern@) {
            Ok(r) => result == Ok::<bool, SyntaxError>(exists|end: int| spans(r, line@, 0, end))
                && result == Ok::<bool, SyntaxError>(accepts(compile_spec(r), line@, 0, 0)),
            Err(e) => result == Err::<bool, SyntaxError>(e),
        },
{
    match parse(pattern) {
        Ok(ast) => {
            let instructions = compile(&ast);
            let chars: Vec<char> = chars_of(line);
            proof {
                lemma_accepts_iff_spans(ast@, chars@, 0);
            }
            Ok(eval(&instructions, &chars, 0, 0))
        },
        Err(e) => Err(e),
    }
}

} // verus!
