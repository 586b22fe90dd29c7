//! The compiler is correct: the program of a pattern halts on exactly the
//! stretches of input that the pattern denotes.

use vstd::pervasive::trigger;
use vstd::prelude::*;
use crate::compiler::{
    code, code_len, compile_spec, lemma_code_len, lemma_parts_code_len, parts_code, parts_len,
    Instruction,
};
use crate::evaluator::{accepts, halts_at, halts_within};
use crate::language::{repeat_spans, seq_spans, spans, Regex};

verus! {

/// The instructions `part` stand in `program` from address `base` on.
pub open spec fn holds_at(program: Seq<Instruction>, base: nat, part: Seq<Instruction>) -> bool {
    &&& base + part.len() <= program.len()
    &&& forall|i: int| 0 <= i < part.len() ==> program[base + i] == #[trigger] part[i]
}

/// What stands in a stretch of a program stands in each stretch of that
/// stretch.
pub proof fn lemma_holds_part(
    program: Seq<Instruction>,
    base: nat,
    whole: Seq<Instruction>,
    offset: nat,
    part: Seq<Instruction>,
)
    requires
        holds_at(program, base, whole),
        offset + part.len() <= whole.len(),
        forall|j: int| 0 <= j < part.len() ==> whole[offset + j] == #[trigger] part[j],
    ensures
        holds_at(program, base + offset, part),
{
    assert forall|j: int| 0 <= j < part.len() implies program[base + offset + j]
        == #[trigger] part[j] by {
        assert(whole[offset + j] == part[j]);
        assert(program[base + (offset + j)] == whole[offset + j]);
    }
}

/// Where the instructions of `inner*` stand.
pub proof fn lemma_star_layout(inner: Regex, program: Seq<Instruction>, base: nat)
    requires
        holds_at(program, base, code(Regex::Star(Box::new(inner)), base)),
        base + code_len(inner) + 2 <= usize::MAX,
    ensures
        base + code_len(inner) + 2 <= program.len(),
        program[base as int] == Instruction::Split(
            (base + 1) as usize,
            (base + code_len(inner) + 2) as usize,
        ),
        holds_at(program, base + 1, code(inner, base + 1)),
        program[(base + code_len(inner) + 1) as int] == Instruction::Jump(base as usize),
{
    let whole = code(Regex::Star(Box::new(inner)), base);
    lemma_code_len(inner, base + 1);
    assert(program[base + 0int] == whole[0]);
    assert(program[base + (code_len(inner) + 1) as int] == whole[(code_len(inner) + 1) as int]);
    lemma_holds_part(program, base, whole, 1, code(inner, base + 1));
}

/// Where the instructions of `inner+` stand.
pub proof fn lemma_plus_layout(inner: Regex, program: Seq<Instruction>, base: nat)
    requires
        holds_at(program, base, code(Regex::Plus(Box::new(inner)), base)),
        base + code_len(inner) + 1 <= usize::MAX,
    ensures
        base + code_len(inner) + 1 <= program.len(),
        holds_at(program, base, code(inner, base)),
        program[(base + code_len(inner)) as int] == Instruction::Split(
            base as usize,
            (base + code_len(inner) + 1) as usize,
        ),
{
    let whole = code(Regex::Plus(Box::new(inner)), base);
    lemma_code_len(inner, base);
    assert(program[base + code_len(inner) as int] == whole[code_len(inner) as int]);
    lemma_holds_part(program, base, whole, 0, code(inner, base));
}

/// Where the instructions of `inner?` stand.
pub proof fn lemma_question_layout(inner: Regex, program: Seq<Instruction>, base: nat)
    requires
        holds_at(program, base, code(Regex::Question(Box::new(inner)), base)),
        base + code_len(inner) + 1 <= usize::MAX,
    ensures
        base + code_len(inner) + 1 <= program.len(),
        program[base as int] == Instruction::Split(
            (base + 1) as usize,
            (base + code_len(inner) + 1) as usize,
        ),
        holds_at(program, base + 1, code(inner, base + 1)),
{
    let whole = code(Regex::Question(Box::new(inner)), base);
    lemma_code_len(inner, base + 1);
    assert(program[base + 0int] == whole[0]);
    lemma_holds_part(program, base, whole, 1, code(inner, base + 1));
}

/// Where the instructions of `left|right` stand.
pub proof fn lemma_or_layout(left: Regex, right: Regex, program: Seq<Instruction>, base: nat)
    requires
        holds_at(program, base, code(Regex::Or(Box::new(left), Box::new(right)), base)),
        base + code_len(left) + code_len(right) + 2 <= usize::MAX,
    ensures
        base + code_len(left) + code_len(right) + 2 <= program.len(),
        program[base as int] == Instruction::Split(
            (base + 1) as usize,
            (base + code_len(left) + 2) as usize,
        ),
        holds_at(program, base + 1, code(left, base + 1)),
        program[(base + code_len(left) + 1) as int] == Instruction::Jump(
            (base + code_len(left) + code_len(right) + 2) as usize,
        ),
        holds_at(program, base + code_len(left) + 2, code(right, base + code_len(left) + 2)),
{
    let whole = code(Regex::Or(Box::new(left), Box::new(right)), base);
    let second = base + code_len(left) + 2;
    lemma_code_len(left, base + 1);
    lemma_code_len(right, second);
    assert(program[base + 0int] == whole[0]);
    assert(program[base + (code_len(left) + 1) as int] == whole[(code_len(left) + 1) as int]);
    lemma_holds_part(program, base, whole, 1, code(left, base + 1));
    lemma_holds_part(program, base, whole, code_len(left) + 2, code(right, second));
}

/// The lengths of the parts add up.
pub proof fn lemma_parts_len_grows(parts: Seq<Regex>, k: nat, n: nat)
    requires
        k <= n <= parts.len(),
    ensures
        parts_len(parts, k) <= parts_len(parts, n),
    decreases n,
{
    if k < n {
        lemma_parts_len_grows(parts, k, (n - 1) as nat);
    }
}

/// Where the instructions of part `k` of a concatenation stand.
pub proof fn lemma_part_layout(parts: Seq<Regex>, n: nat, k: nat, program: Seq<Instruction>, base: nat)
    requires
        k < n <= parts.len(),
        holds_at(program, base, parts_code(parts, n, base)),
    ensures
        holds_at(program, base + parts_len(parts, k), code(parts[k as int], base + parts_len(parts, k))),
    decreases n,
{
    let before = (n - 1) as nat;
    let whole = parts_code(parts, n, base);
    let last = code(parts[n - 1], base + parts_len(parts, before));
    lemma_parts_code_len(parts, before, base);
    lemma_parts_code_len(parts, n, base);
    lemma_code_len(parts[n - 1], base + parts_len(parts, before));
    if k == n - 1 {
        lemma_holds_part(program, base, whole, parts_len(parts, before), last);
    } else {
        lemma_holds_part(program, base, whole, 0, parts_code(parts, before, base));
        lemma_part_layout(parts, before, k, program, base);
    }
}

/// The instructions of `r` match every stretch that `r` denotes: where a
/// path leads from the address behind them to a `Match`, a path leads there
/// from their first address and the start of the stretch.
pub proof fn lemma_complete(
    r: Regex,
    program: Seq<Instruction>,
    input: Seq<char>,
    base: nat,
    from: int,
    to: int,
    end: int,
    steps: nat,
) -> (total: nat)
    requires
        holds_at(program, base, code(r, base)),
        base + code_len(r) <= usize::MAX,
        spans(r, input, from, to),
        halts_within(program, input, (base + code_len(r)) as int, to, end, steps),
    ensures
        halts_within(program, input, base as int, from, end, total),
    decreases r, 0nat, 0nat,
{
    lemma_code_len(r, base);
    match r {
        Regex::Char(c) => {
            assert(program[base + 0int] == code(r, base)[0]);
            steps + 1
        },
        Regex::Plus(inner) => {
            let n = choose|n: nat| #[trigger] trigger(n) && n >= 1 && repeat_spans(*inner, n, input, from, to);
            lemma_complete_plus(*inner, n, program, input, base, from, to, end, steps)
        },
        Regex::Star(inner) => {
            let n = choose|n: nat| #[trigger] trigger(n) && repeat_spans(*inner, n, input, from, to);
            lemma_complete_star(*inner, n, program, input, base, from, to, end, steps)
        },
        Regex::Question(inner) => {
            lemma_question_layout(*inner, program, base);
            if spans(*inner, input, from, to) {
                lemma_complete(*inner, program, input, base + 1, from, to, end, steps) + 1
            } else {
                steps + 1
            }
        },
        Regex::Or(left, right) => {
            lemma_or_layout(*left, *right, program, base);
            if spans(*left, input, from, to) {
                let jump = (base + code_len(*left) + 1) as int;
                assert(halts_within(program, input, jump, to, end, steps + 1));
                lemma_complete(*left, program, input, base + 1, from, to, end, steps + 1) + 1
            } else {
                lemma_complete(
                    *right,
                    program,
                    input,
                    base + code_len(*left) + 2,
                    from,
                    to,
                    end,
                    steps,
                ) + 1
            }
        },
        Regex::Concat(parts) => lemma_complete_parts(
            parts,
            0,
            program,
            input,
            base,
            from,
            to,
            end,
            steps,
        ),
    }
}

/// `lemma_complete` for `n` turns of the loop of `inner*`.
pub proof fn lemma_complete_star(
    inner: Regex,
    n: nat,
    program: Seq<Instruction>,
    input: Seq<char>,
    base: nat,
    from: int,
    to: int,
    end: int,
    steps: nat,
) -> (total: nat)
    requires
        holds_at(program, base, code(Regex::Star(Box::new(inner)), base)),
        base + code_len(inner) + 2 <= usize::MAX,
        repeat_spans(inner, n, input, from, to),
        halts_within(program, input, (base + code_len(inner) + 2) as int, to, end, steps),
    ensures
        halts_within(program, input, base as int, from, end, total),
    decreases inner, 1nat, n,
{
    lemma_star_layout(inner, program, base);
    if n == 0 {
        steps + 1
    } else {
        let mid = choose|mid: int| #[trigger]
            trigger(mid) && spans(inner, input, from, mid) && repeat_spans(
                inner,
                (n - 1) as nat,
                input,
                mid,
                to,
            );
        let again = lemma_complete_star(
            inner,
            (n - 1) as nat,
            program,
            input,
            base,
            mid,
            to,
            end,
            steps,
        );
        let jump = (base + code_len(inner) + 1) as int;
        assert(halts_within(program, input, jump, mid, end, again + 1));
        lemma_complete(inner, program, input, base + 1, from, mid, end, again + 1) + 1
    }
}

/// `lemma_complete` for `n` turns of the loop of `inner+`.
pub proof fn lemma_complete_plus(
    inner: Regex,
    n: nat,
    program: Seq<Instruction>,
    input: Seq<char>,
    base: nat,
    from: int,
    to: int,
    end: int,
    steps: nat,
) -> (total: nat)
    requires
        holds_at(program, base, code(Regex::Plus(Box::new(inner)), base)),
        base + code_len(inner) + 1 <= usize::MAX,
        n >= 1,
        repeat_spans(inner, n, input, from, to),
        halts_within(program, input, (base + code_len(inner) + 1) as int, to, end, steps),
    ensures
        halts_within(program, input, base as int, from, end, total),
    decreases inner, 1nat, n,
{
    lemma_plus_layout(inner, program, base);
    let split = (base + code_len(inner)) as int;
    let mid = choose|mid: int| #[trigger]
        trigger(mid) && spans(inner, input, from, mid) && repeat_spans(
            inner,
            (n - 1) as nat,
            input,
            mid,
            to,
        );
    if n == 1 {
        assert(halts_within(program, input, split, mid, end, steps + 1));
        lemma_complete(inner, program, input, base, from, mid, end, steps + 1)
    } else {
        let again = lemma_complete_plus(
            inner,
            (n - 1) as nat,
            program,
            input,
            base,
            mid,
            to,
            end,
            steps,
        );
        assert(halts_within(program, input, split, mid, end, again + 1));
        lemma_complete(inner, program, input, base, from, mid, end, again + 1)
    }
}

/// `lemma_complete` for the parts of a concatenation from part `k` on.
pub proof fn lemma_complete_parts(
    parts: Seq<Regex>,
    k: nat,
    program: Seq<Instruction>,
    input: Seq<char>,
    base: nat,
    from: int,
    to: int,
    end: int,
    steps: nat,
) -> (total: nat)
    requires
        k <= parts.len(),
        holds_at(program, base, parts_code(parts, parts.len(), base)),
        base + parts_len(parts, parts.len()) <= usize::MAX,
        seq_spans(parts, k, input, from, to),
        halts_within(program, input, (base + parts_len(parts, parts.len())) as int, to, end, steps),
    ensures
        halts_within(program, input, (base + parts_len(parts, k)) as int, from, end, total),
    decreases parts, 1nat, parts.len() - k,
{
    if k >= parts.len() {
        steps
    } else {
        let mid = choose|mid: int| #[trigger]
            trigger(mid) && spans(parts[k as int], input, from, mid) && seq_spans(
                parts,
                k + 1,
                input,
                mid,
                to,
            );
        let rest = lemma_complete_parts(parts, k + 1, program, input, base, mid, to, end, steps);
        lemma_part_layout(parts, parts.len(), k, program, base);
        lemma_parts_len_grows(parts, k + 1, parts.len());
        lemma_complete(
            parts[k as int],
            program,
            input,
            base + parts_len(parts, k),
            from,
            mid,
            end,
            rest,
        )
    }
}

/// The instructions of `r` match nothing else: a path from their first
/// address to a `Match` passes the address behind them, and it has read a
/// stretch that `r` denotes when it does. The result is where that stretch
/// ends and how many steps the rest of the path takes.
pub proof fn lemma_sound(
    r: Regex,
    program: Seq<Instruction>,
    input: Seq<char>,
    base: nat,
    from: int,
    end: int,
    steps: nat,
) -> (out: (int, nat))
    requires
        holds_at(program, base, code(r, base)),
        base + code_len(r) <= usize::MAX,
        halts_within(program, input, base as int, from, end, steps),
    ensures
        spans(r, input, from, out.0),
        out.1 <= steps,
        halts_within(program, input, (base + code_len(r)) as int, out.0, end, out.1),
    decreases r, 0nat, steps,
{
    lemma_code_len(r, base);
    let rest = (steps - 1) as nat;
    match r {
        Regex::Char(c) => {
            assert(program[base + 0int] == code(r, base)[0]);
            (from + 1, rest)
        },
        Regex::Plus(inner) => {
            lemma_plus_layout(*inner, program, base);
            let (mid, left) = lemma_sound(*inner, program, input, base, from, end, steps);
            let after = (left - 1) as nat;
            if halts_within(program, input, base as int, mid, end, after) {
                let (to, last) = lemma_sound(r, program, input, base, mid, end, after);
                let n = choose|n: nat| #[trigger] trigger(n) && n >= 1 && repeat_spans(*inner, n, input, mid, to);
                assert(trigger(mid));
                assert(repeat_spans(*inner, n + 1, input, from, to));
                assert(trigger(n + 1));
                (to, last)
            } else {
                assert(trigger(mid));
                assert(repeat_spans(*inner, 0, input, mid, mid));
                assert(repeat_spans(*inner, 1, input, from, mid));
                assert(trigger(1nat));
                (mid, after)
            }
        },
        Regex::Star(inner) => {
            lemma_star_layout(*inner, program, base);
            if halts_within(program, input, (base + 1) as int, from, end, rest) {
                let (mid, left) = lemma_sound(*inner, program, input, base + 1, from, end, rest);
                let (to, last) = lemma_sound(r, program, input, base, mid, end, (left - 1) as nat);
                let n = choose|n: nat| #[trigger] trigger(n) && repeat_spans(*inner, n, input, mid, to);
                assert(trigger(mid));
                assert(repeat_spans(*inner, n + 1, input, from, to));
                assert(trigger(n + 1));
                (to, last)
            } else {
                assert(repeat_spans(*inner, 0, input, from, from));
                assert(trigger(0nat));
                (from, rest)
            }
        },
        Regex::Question(inner) => {
            lemma_question_layout(*inner, program, base);
            if halts_within(program, input, (base + 1) as int, from, end, rest) {
                lemma_sound(*inner, program, input, base + 1, from, end, rest)
            } else {
                (from, rest)
            }
        },
        Regex::Or(left, right) => {
            lemma_or_layout(*left, *right, program, base);
            if halts_within(program, input, (base + 1) as int, from, end, rest) {
                let (to, last) = lemma_sound(*left, program, input, base + 1, from, end, rest);
                (to, (last - 1) as nat)
            } else {
                lemma_sound(
                    *right,
                    program,
                    input,
                    base + code_len(*left) + 2,
                    from,
                    end,
                    rest,
                )
            }
        },
        Regex::Concat(parts) => lemma_sound_parts(parts, 0, program, input, base, from, end, steps),
    }
}

/// `lemma_sound` for the parts of a concatenation from part `k` on.
pub proof fn lemma_sound_parts(
    parts: Seq<Regex>,
    k: nat,
    program: Seq<Instruction>,
    input: Seq<char>,
    base: nat,
    from: int,
    end: int,
    steps: nat,
) -> (out: (int, nat))
    requires
        k <= parts.len(),
        holds_at(program, base, parts_code(parts, parts.len(), base)),
        base + parts_len(parts, parts.len()) <= usize::MAX,
        halts_within(program, input, (base + parts_len(parts, k)) as int, from, end, steps),
    ensures
        seq_spans(parts, k, input, from, out.0),
        out.1 <= steps,
        halts_within(
            program,
            input,
            (base + parts_len(parts, parts.len())) as int,
            out.0,
            end,
            out.1,
        ),
    decreases parts, parts.len() - k, steps,
{
    if k >= parts.len() {
        (from, steps)
    } else {
        lemma_part_layout(parts, parts.len(), k, program, base);
        lemma_parts_len_grows(parts, k + 1, parts.len());
        let (mid, left) = lemma_sound(
            parts[k as int],
            program,
            input,
            base + parts_len(parts, k),
            from,
            end,
            steps,
        );
        let (to, last) = lemma_sound_parts(parts, k + 1, program, input, base, mid, end, left);
        assert(trigger(mid));
        (to, last)
    }
}

/// The program of a pattern, started at its first instruction, halts
/// exactly at the ends of the stretches that the pattern denotes.
pub proof fn lemma_compile_correct(r: Regex, input: Seq<char>, from: int, end: int)
    requires
        code_len(r) < usize::MAX,
    ensures
        halts_at(compile_spec(r), input, 0, from, end) <==> spans(r, input, from, end),
{
    let program = compile_spec(r);
    lemma_code_len(r, 0);
    assert(holds_at(program, 0, code(r, 0)));
    let last = code_len(r) as int;
    assert(program[last] == Instruction::Match);
    if halts_at(program, input, 0, from, end) {
        let steps = choose|steps: nat| halts_within(program, input, 0, from, end, steps);
        let (to, left) = lemma_sound(r, program, input, 0, from, end, steps);
    }
    if spans(r, input, from, end) {
        assert(halts_within(program, input, last, end, end, 0));
        let total = lemma_complete(r, program, input, 0, from, end, end, 0);
    }
}

/// The program of a pattern accepts an input from a place on exactly if the
/// pattern denotes a stretch of the input that starts at that place.
pub proof fn lemma_accepts_iff_spans(r: Regex, input: Seq<char>, from: int)
    requires
        code_len(r) < usize::MAX,
    ensures
        accepts(compile_spec(r), input, 0, from) <==> exists|end: int| spans(r, input, from, end),
{
    if accepts(compile_spec(r), input, 0, from) {
        let end = choose|end: int| halts_at(compile_spec(r), input, 0, from, end);
        lemma_compile_correct(r, input, from, end);
    }
    if exists|end: int| spans(r, input, from, end) {
        let end = choose|end: int| spans(r, input, from, end);
        lemma_compile_correct(r, input, from, end);
    }
}

} // verus!
