//! What the program of a composite pattern does, in terms of the programs of
//! its parts.

use vstd::pervasive::trigger;
use vstd::prelude::*;
use crate::compiler::{code_len, compile_spec, parts_len};
use crate::correctness::{lemma_accepts_iff_spans, lemma_compile_correct};
use crate::evaluator::{accepts, halts_at};
use crate::language::{
    lemma_spans_bounds, lemma_spans_moved, repeat_spans, same_stretch, seq_spans, spans, Regex,
};

verus! {

/// The program of `r`, started at its first instruction with the input read
/// up to `from`, can halt with the input read up to `to`.
pub open spec fn program_spans(r: Regex, input: Seq<char>, from: int, to: int) -> bool {
    halts_at(compile_spec(r), input, 0, from, to)
}

/// The program of `r` can be run `n` times in a row, each run starting in the
/// input where the one before it halted, the first at `from` and the last
/// halting at `to`.
pub open spec fn program_repeats(r: Regex, n: nat, input: Seq<char>, from: int, to: int) -> bool
    decreases n,
{
    if n == 0 {
        to == from
    } else {
        exists|mid: int| #[trigger]
            program_spans(r, input, from, mid) && program_repeats(
                r,
                (n - 1) as nat,
                input,
                mid,
                to,
            )
    }
}

/// The pattern of two parts, one after the other.
pub open spec fn pair(first: Regex, second: Regex) -> Regex {
    Regex::Concat(seq![first, second])
}

/// Runs of a program in a row cover what repetitions of its pattern denote.
pub proof fn lemma_program_repeats(r: Regex, n: nat, input: Seq<char>, from: int, to: int)
    requires
        code_len(r) < usize::MAX,
    ensures
        program_repeats(r, n, input, from, to) <==> repeat_spans(r, n, input, from, to),
    decreases n,
{
    if n > 0 {
        let fewer = (n - 1) as nat;
        if program_repeats(r, n, input, from, to) {
            let mid = choose|mid: int| #[trigger]
                program_spans(r, input, from, mid) && program_repeats(r, fewer, input, mid, to);
            lemma_compile_correct(r, input, from, mid);
            lemma_program_repeats(r, fewer, input, mid, to);
            assert(trigger(mid));
        }
        if repeat_spans(r, n, input, from, to) {
            let mid = choose|mid: int| #[trigger]
                trigger(mid) && spans(r, input, from, mid) && repeat_spans(
                    r,
                    fewer,
                    input,
                    mid,
                    to,
                );
            lemma_compile_correct(r, input, from, mid);
            lemma_program_repeats(r, fewer, input, mid, to);
            assert(program_spans(r, input, from, mid));
        }
    }
}

/// Concatenation: the program of `first` followed by `second` halts at `to`
/// exactly if the program of `first` halts somewhere and the program of
/// `second`, started there, halts at `to`.
pub proof fn lemma_concatenation(first: Regex, second: Regex, input: Seq<char>, from: int, to: int)
    requires
        code_len(first) + code_len(second) < usize::MAX,
    ensures
        program_spans(pair(first, second), input, from, to) <==> exists|mid: int| #[trigger]
            program_spans(first, input, from, mid) && program_spans(second, input, mid, to),
{
    let both = pair(first, second);
    let parts = seq![first, second];
    assert(parts_len(parts, 0) == 0);
    assert(parts_len(parts, 1) == code_len(first));
    assert(parts_len(parts, 2) == code_len(first) + code_len(second));
    lemma_compile_correct(both, input, from, to);
    if spans(both, input, from, to) {
        assert(seq_spans(parts, 0, input, from, to));
        let mid = choose|mid: int| #[trigger]
            trigger(mid) && spans(parts[0], input, from, mid) && seq_spans(
                parts,
                1,
                input,
                mid,
                to,
            );
        assert(seq_spans(parts, 1, input, mid, to));
        let last = choose|last: int| #[trigger]
            trigger(last) && spans(parts[1], input, mid, last) && seq_spans(
                parts,
                2,
                input,
                last,
                to,
            );
        assert(seq_spans(parts, 2, input, last, to));
        lemma_compile_correct(first, input, from, mid);
        lemma_compile_correct(second, input, mid, to);
        assert(program_spans(first, input, from, mid) && program_spans(second, input, mid, to));
    }
    if exists|mid: int| #[trigger]
        program_spans(first, input, from, mid) && program_spans(second, input, mid, to) {
        let mid = choose|mid: int| #[trigger]
            program_spans(first, input, from, mid) && program_spans(second, input, mid, to);
        lemma_compile_correct(first, input, from, mid);
        lemma_compile_correct(second, input, mid, to);
        assert(trigger(to));
        assert(seq_spans(parts, 2, input, to, to));
        assert(seq_spans(parts, 1, input, mid, to));
        assert(trigger(mid));
        assert(seq_spans(parts, 0, input, from, to));
    }
}

/// The program of `r` can read the whole of `input` and halt.
pub open spec fn matches_all(r: Regex, input: Seq<char>) -> bool {
    program_spans(r, input, 0, input.len() as int)
}

/// Concatenation of inputs: where the program of `first` can read the whole
/// of `x` and the program of `second` the whole of `y`, the program of the
/// two in a row can read the whole of `x` followed by `y`.
pub proof fn lemma_concatenation_joins(first: Regex, second: Regex, x: Seq<char>, y: Seq<char>)
    requires
        code_len(first) + code_len(second) < usize::MAX,
        matches_all(first, x),
        matches_all(second, y),
    ensures
        matches_all(pair(first, second), x + y),
{
    let z = x + y;
    let cut = x.len() as int;
    let end = z.len() as int;
    lemma_compile_correct(first, x, 0, cut);
    lemma_compile_correct(second, y, 0, y.len() as int);
    assert(same_stretch(x, 0, cut, z, 0));
    assert(same_stretch(y, 0, y.len() as int, z, cut));
    lemma_spans_moved(first, x, 0, cut, z, 0);
    lemma_spans_moved(second, y, 0, y.len() as int, z, cut);
    lemma_compile_correct(first, z, 0, cut);
    lemma_compile_correct(second, z, cut, end);
    assert(program_spans(first, z, 0, cut) && program_spans(second, z, cut, end));
    lemma_concatenation(first, second, z, 0, end);
}

/// And no other: an input that the program of `first` followed by `second`
/// can read as a whole falls into a part that the program of `first` can
/// read as a whole and a part that the program of `second` can. The result
/// is where the first part ends.
pub proof fn lemma_concatenation_splits(first: Regex, second: Regex, z: Seq<char>) -> (cut: int)
    requires
        code_len(first) + code_len(second) < usize::MAX,
        matches_all(pair(first, second), z),
    ensures
        0 <= cut <= z.len(),
        matches_all(first, z.subrange(0, cut)),
        matches_all(second, z.subrange(cut, z.len() as int)),
{
    let end = z.len() as int;
    lemma_concatenation(first, second, z, 0, end);
    let cut = choose|mid: int| #[trigger]
        program_spans(first, z, 0, mid) && program_spans(second, z, mid, end);
    lemma_compile_correct(first, z, 0, cut);
    lemma_compile_correct(second, z, cut, end);
    lemma_spans_bounds(first, z, 0, cut);
    lemma_spans_bounds(second, z, cut, end);
    let x = z.subrange(0, cut);
    let y = z.subrange(cut, end);
    assert(same_stretch(z, 0, cut, x, 0));
    assert(same_stretch(z, cut, end, y, -cut));
    lemma_spans_moved(first, z, 0, cut, x, 0);
    lemma_spans_moved(second, z, cut, end, y, -cut);
    lemma_compile_correct(first, x, 0, cut);
    lemma_compile_correct(second, y, 0, end - cut);
    cut
}

/// Alternation: the program of `left|right` halts exactly where the program
/// of `left` or the program of `right` does.
pub proof fn lemma_alternation(left: Regex, right: Regex, input: Seq<char>, from: int, to: int)
    requires
        code_len(left) + code_len(right) + 2 < usize::MAX,
    ensures
        program_spans(Regex::Or(Box::new(left), Box::new(right)), input, from, to) <==> (
        program_spans(left, input, from, to) || program_spans(right, input, from, to)),
{
    lemma_compile_correct(Regex::Or(Box::new(left), Box::new(right)), input, from, to);
    lemma_compile_correct(left, input, from, to);
    lemma_compile_correct(right, input, from, to);
}

/// Which alternative stands first decides which is tried first, not whether
/// the input is accepted.
pub proof fn lemma_alternation_order(left: Regex, right: Regex, input: Seq<char>, from: int)
    requires
        code_len(left) + code_len(right) + 2 < usize::MAX,
    ensures
        accepts(compile_spec(Regex::Or(Box::new(left), Box::new(right))), input, 0, from)
            <==> (accepts(compile_spec(left), input, 0, from) || accepts(
            compile_spec(right),
            input,
            0,
            from,
        )),
        accepts(compile_spec(Regex::Or(Box::new(left), Box::new(right))), input, 0, from)
            <==> accepts(compile_spec(Regex::Or(Box::new(right), Box::new(left))), input, 0, from),
{
    let one = Regex::Or(Box::new(left), Box::new(right));
    let other = Regex::Or(Box::new(right), Box::new(left));
    lemma_accepts_iff_spans(one, input, from);
    lemma_accepts_iff_spans(other, input, from);
    lemma_accepts_iff_spans(left, input, from);
    lemma_accepts_iff_spans(right, input, from);
    if exists|end: int| spans(one, input, from, end) {
        let end = choose|end: int| spans(one, input, from, end);
        assert(spans(left, input, from, end) || spans(right, input, from, end));
        assert(spans(other, input, from, end));
    }
    if exists|end: int| spans(other, input, from, end) {
        let end = choose|end: int| spans(other, input, from, end);
        assert(spans(left, input, from, end) || spans(right, input, from, end));
        assert(spans(one, input, from, end));
    }
    if exists|end: int| spans(left, input, from, end) {
        let end = choose|end: int| spans(left, input, from, end);
        assert(spans(one, input, from, end));
    }
    if exists|end: int| spans(right, input, from, end) {
        let end = choose|end: int| spans(right, input, from, end);
        assert(spans(one, input, from, end));
    }
}

/// `*`: the program of `inner*` halts exactly where zero or more runs in a
/// row of the program of `inner` do.
pub proof fn lemma_star(inner: Regex, input: Seq<char>, from: int, to: int)
    requires
        code_len(inner) + 2 < usize::MAX,
    ensures
        program_spans(Regex::Star(Box::new(inner)), input, from, to) <==> exists|n: nat| #[trigger]
            program_repeats(inner, n, input, from, to),
{
    let star = Regex::Star(Box::new(inner));
    lemma_compile_correct(star, input, from, to);
    if spans(star, input, from, to) {
        let n = choose|n: nat| #[trigger] trigger(n) && repeat_spans(inner, n, input, from, to);
        lemma_program_repeats(inner, n, input, from, to);
    }
    if exists|n: nat| #[trigger] program_repeats(inner, n, input, from, to) {
        let n = choose|n: nat| #[trigger] program_repeats(inner, n, input, from, to);
        lemma_program_repeats(inner, n, input, from, to);
        assert(trigger(n));
    }
}

/// `+`: the program of `inner+` halts exactly where one or more runs in a
/// row of the program of `inner` do.
pub proof fn lemma_plus(inner: Regex, input: Seq<char>, from: int, to: int)
    requires
        code_len(inner) + 1 < usize::MAX,
    ensures
        program_spans(Regex::Plus(Box::new(inner)), input, from, to) <==> exists|n: nat|
            n >= 1 && #[trigger] program_repeats(inner, n, input, from, to),
{
    let plus = Regex::Plus(Box::new(inner));
    lemma_compile_correct(plus, input, from, to);
    if spans(plus, input, from, to) {
        let n = choose|n: nat| #[trigger]
            trigger(n) && n >= 1 && repeat_spans(inner, n, input, from, to);
        lemma_program_repeats(inner, n, input, from, to);
    }
    if exists|n: nat| n >= 1 && #[trigger] program_repeats(inner, n, input, from, to) {
        let n = choose|n: nat| n >= 1 && #[trigger] program_repeats(inner, n, input, from, to);
        lemma_program_repeats(inner, n, input, from, to);
        assert(trigger(n));
    }
}

/// `?`: the program of `inner?` halts where it started, and where the
/// program of `inner` halts, and nowhere else.
pub proof fn lemma_question(inner: Regex, input: Seq<char>, from: int, to: int)
    requires
        code_len(inner) + 1 < usize::MAX,
    ensures
        program_spans(Regex::Question(Box::new(inner)), input, from, to) <==> (to == from
            || program_spans(inner, input, from, to)),
        program_spans(Regex::Question(Box::new(inner)), input, from, to) <==> (program_repeats(
            inner,
            0,
            input,
            from,
            to,
        ) || program_repeats(inner, 1, input, from, to)),
{
    lemma_compile_correct(Regex::Question(Box::new(inner)), input, from, to);
    lemma_compile_correct(inner, input, from, to);
    if program_repeats(inner, 1, input, from, to) {
        let mid = choose|mid: int| #[trigger]
            program_spans(inner, input, from, mid) && program_repeats(inner, 0, input, mid, to);
    }
    if program_spans(inner, input, from, to) {
        assert(program_repeats(inner, 0, input, to, to));
    }
}

} // verus!
