//! The matching machine: what it means for a program to accept an input, and
//! the backtracking search that decides it.

use vstd::prelude::*;
use crate::compiler::{well_formed, Instruction};

verus! {

/// A path of at most `steps` steps leads from address `pc`, with the input
/// read up to `index`, to a `Match` that is reached with the input read up to
/// `end`. A `Char` reads the character at `index` and fails where there is
/// none or another one; `Jump` and `Split` read nothing.
pub open spec fn halts_within(
    program: Seq<Instruction>,
    input: Seq<char>,
    pc: int,
    index: int,
    end: int,
    steps: nat,
) -> bool
    decreases steps,
{
    &&& 0 <= pc < program.len()
    &&& match program[pc] {
        Instruction::Match => index == end,
        Instruction::Char(c) => {
            &&& steps > 0
            &&& 0 <= index < input.len()
            &&& input[index] == c
            &&& halts_within(program, input, pc + 1, index + 1, end, (steps - 1) as nat)
        },
        Instruction::Jump(target) => {
            &&& steps > 0
            &&& halts_within(program, input, target as int, index, end, (steps - 1) as nat)
        },
        Instruction::Split(first, second) => {
            &&& steps > 0
            &&& (halts_within(program, input, first as int, index, end, (steps - 1) as nat)
                || halts_within(program, input, second as int, index, end, (steps - 1) as nat))
        },
    }
}

/// Some path leads from `pc` at `index` to a `Match` reached at `end`.
pub open spec fn halts_at(
    program: Seq<Instruction>,
    input: Seq<char>,
    pc: int,
    index: int,
    end: int,
) -> bool {
    exists|steps: nat| halts_within(program, input, pc, index, end, steps)
}

/// Some path leads from `pc` at `index` to a `Match`, wherever in the input
/// it is reached.
pub open spec fn accepts(program: Seq<Instruction>, input: Seq<char>, pc: int, index: int) -> bool {
    exists|end: int| halts_at(program, input, pc, index, end)
}

/// Whether an input is accepted depends on the program, the input and the
/// place to start alone: two answers that both say what `accepts` says are
/// the same answer.
pub proof fn lemma_one_answer(
    program: Seq<Instruction>,
    input: Seq<char>,
    pc: int,
    index: int,
    first: bool,
    second: bool,
)
    requires
        first == accepts(program, input, pc, index),
        second == accepts(program, input, pc, index),
    ensures
        first == second,
{
}

/// As `halts_within`, for paths that pass no `Jump` or `Split` whose address
/// is in `avoid` before they have read a character.
pub open spec fn halts_avoiding(
    program: Seq<Instruction>,
    input: Seq<char>,
    pc: int,
    index: int,
    avoid: Set<int>,
    end: int,
    steps: nat,
) -> bool
    decreases steps,
{
    &&& 0 <= pc < program.len()
    &&& match program[pc] {
        Instruction::Match => index == end,
        Instruction::Char(c) => {
            &&& steps > 0
            &&& 0 <= index < input.len()
            &&& input[index] == c
            &&& halts_avoiding(
                program,
                input,
                pc + 1,
                index + 1,
                Set::empty(),
                end,
                (steps - 1) as nat,
            )
        },
        Instruction::Jump(target) => {
            &&& steps > 0
            &&& !avoid.contains(pc)
            &&& halts_avoiding(program, input, target as int, index, avoid, end, (steps - 1) as nat)
        },
        Instruction::Split(first, second) => {
            &&& steps > 0
            &&& !avoid.contains(pc)
            &&& (halts_avoiding(program, input, first as int, index, avoid, end, (steps - 1) as nat)
                || halts_avoiding(
                program,
                input,
                second as int,
                index,
                avoid,
                end,
                (steps - 1) as nat,
            ))
        },
    }
}

/// Some path that avoids `avoid` leads from `pc` at `index` to a `Match`.
pub open spec fn accepts_avoiding(
    program: Seq<Instruction>,
    input: Seq<char>,
    pc: int,
    index: int,
    avoid: Set<int>,
) -> bool {
    exists|end: int, steps: nat| halts_avoiding(program, input, pc, index, avoid, end, steps)
}

/// To avoid nothing is no restriction.
pub proof fn lemma_avoid_nothing(
    program: Seq<Instruction>,
    input: Seq<char>,
    pc: int,
    index: int,
    end: int,
    steps: nat,
)
    ensures
        halts_avoiding(program, input, pc, index, Set::empty(), end, steps) == halts_within(
            program,
            input,
            pc,
            index,
            end,
            steps,
        ),
    decreases steps,
{
    if 0 <= pc < program.len() && steps > 0 {
        let rest = (steps - 1) as nat;
        match program[pc] {
            Instruction::Match => {},
            Instruction::Char(c) => {
                lemma_avoid_nothing(program, input, pc + 1, index + 1, end, rest);
            },
            Instruction::Jump(target) => {
                lemma_avoid_nothing(program, input, target as int, index, end, rest);
            },
            Instruction::Split(first, second) => {
                lemma_avoid_nothing(program, input, first as int, index, end, rest);
                lemma_avoid_nothing(program, input, second as int, index, end, rest);
            },
        }
    }
}

/// A path that avoids `more` avoids every part of it.
pub proof fn lemma_avoid_less(
    program: Seq<Instruction>,
    input: Seq<char>,
    pc: int,
    index: int,
    less: Set<int>,
    more: Set<int>,
    end: int,
    steps: nat,
)
    requires
        less.subset_of(more),
        halts_avoiding(program, input, pc, index, more, end, steps),
    ensures
        halts_avoiding(program, input, pc, index, less, end, steps),
    decreases steps,
{
    if steps > 0 {
        let rest = (steps - 1) as nat;
        match program[pc] {
            Instruction::Match => {},
            Instruction::Char(c) => {},
            Instruction::Jump(target) => {
                lemma_avoid_less(program, input, target as int, index, less, more, end, rest);
            },
            Instruction::Split(first, second) => {
                if halts_avoiding(program, input, first as int, index, more, end, rest) {
                    lemma_avoid_less(program, input, first as int, index, less, more, end, rest);
                } else {
                    lemma_avoid_less(program, input, second as int, index, less, more, end, rest);
                }
            },
        }
    }
}

/// A path from `pc` that avoids `avoid` either avoids the address `stop`
/// too, or passes it: then a path that is no longer leads on from `stop`.
pub proof fn lemma_cut(
    program: Seq<Instruction>,
    input: Seq<char>,
    pc: int,
    index: int,
    avoid: Set<int>,
    stop: int,
    end: int,
    steps: nat,
)
    requires
        halts_avoiding(program, input, pc, index, avoid, end, steps),
    ensures
        halts_avoiding(program, input, pc, index, avoid.insert(stop), end, steps) || exists|
            fewer: nat,
        |
            fewer <= steps && halts_avoiding(program, input, stop, index, avoid, end, fewer),
    decreases steps,
{
    if pc == stop {
        assert(halts_avoiding(program, input, stop, index, avoid, end, steps));
    } else if steps > 0 {
        let rest = (steps - 1) as nat;
        match program[pc] {
            Instruction::Match => {},
            Instruction::Char(c) => {},
            Instruction::Jump(target) => {
                lemma_cut(program, input, target as int, index, avoid, stop, end, rest);
            },
            Instruction::Split(first, second) => {
                if halts_avoiding(program, input, first as int, index, avoid, end, rest) {
                    lemma_cut(program, input, first as int, index, avoid, stop, end, rest);
                } else {
                    lemma_cut(program, input, second as int, index, avoid, stop, end, rest);
                }
            },
        }
    }
}

/// A path leads on from the instruction at `pc` without coming back to it.
pub open spec fn leaves(
    program: Seq<Instruction>,
    input: Seq<char>,
    pc: int,
    index: int,
    avoid: Set<int>,
    end: int,
    steps: nat,
) -> bool {
    match program[pc] {
        Instruction::Jump(target) => halts_avoiding(
            program,
            input,
            target as int,
            index,
            avoid.insert(pc),
            end,
            steps,
        ),
        Instruction::Split(first, second) => halts_avoiding(
            program,
            input,
            first as int,
            index,
            avoid.insert(pc),
            end,
            steps,
        ) || halts_avoiding(program, input, second as int, index, avoid.insert(pc), end, steps),
        _ => false,
    }
}

/// Among the paths from a `Jump` or `Split` to a `Match`, one does not come
/// back to where it started: of a path that does, the part behind its last
/// visit is such a path.
pub proof fn lemma_leave(
    program: Seq<Instruction>,
    input: Seq<char>,
    pc: int,
    index: int,
    avoid: Set<int>,
    end: int,
    steps: nat,
) -> (fewer: nat)
    requires
        halts_avoiding(program, input, pc, index, avoid, end, steps),
        program[pc] is Jump || program[pc] is Split,
    ensures
        leaves(program, input, pc, index, avoid, end, fewer),
    decreases steps,
{
    let rest = (steps - 1) as nat;
    let next = match program[pc] {
        Instruction::Jump(target) => target as int,
        Instruction::Split(first, second) => if halts_avoiding(
            program,
            input,
            first as int,
            index,
            avoid,
            end,
            rest,
        ) {
            first as int
        } else {
            second as int
        },
        _ => 0,
    };
    lemma_cut(program, input, next, index, avoid, pc, end, rest);
    if halts_avoiding(program, input, next, index, avoid.insert(pc), end, rest) {
        rest
    } else {
        let again = choose|fewer: nat|
            fewer <= rest && halts_avoiding(program, input, pc, index, avoid, end, fewer);
        lemma_leave(program, input, pc, index, avoid, end, again)
    }
}

/// What the search has to decide at each kind of instruction.
pub proof fn lemma_accepts_step(
    program: Seq<Instruction>,
    input: Seq<char>,
    pc: int,
    index: int,
    avoid: Set<int>,
)
    requires
        0 <= pc < program.len(),
    ensures
        accepts_avoiding(program, input, pc, index, avoid) == match program[pc] {
            Instruction::Match => true,
            Instruction::Char(c) => {
                &&& 0 <= index < input.len()
                &&& input[index] == c
                &&& accepts_avoiding(program, input, pc + 1, index + 1, Set::empty())
            },
            Instruction::Jump(target) => {
                &&& !avoid.contains(pc)
                &&& accepts_avoiding(program, input, target as int, index, avoid.insert(pc))
            },
            Instruction::Split(first, second) => {
                &&& !avoid.contains(pc)
                &&& (accepts_avoiding(program, input, first as int, index, avoid.insert(pc))
                    || accepts_avoiding(program, input, second as int, index, avoid.insert(pc)))
            },
        },
{
    let more = avoid.insert(pc);
    if accepts_avoiding(program, input, pc, index, avoid) {
        let (end, steps) = choose|end: int, steps: nat|
            halts_avoiding(program, input, pc, index, avoid, end, steps);
        match program[pc] {
            Instruction::Match => {},
            Instruction::Char(c) => {
                assert(halts_avoiding(
                    program,
                    input,
                    pc + 1,
                    index + 1,
                    Set::empty(),
                    end,
                    (steps - 1) as nat,
                ));
            },
            Instruction::Jump(target) => {
                let fewer = lemma_leave(program, input, pc, index, avoid, end, steps);
                assert(halts_avoiding(program, input, target as int, index, more, end, fewer));
            },
            Instruction::Split(first, second) => {
                let fewer = lemma_leave(program, input, pc, index, avoid, end, steps);
                assert(halts_avoiding(program, input, first as int, index, more, end, fewer)
                    || halts_avoiding(program, input, second as int, index, more, end, fewer));
            },
        }
    }
    match program[pc] {
        Instruction::Match => {
            assert(halts_avoiding(program, input, pc, index, avoid, index, 0));
        },
        Instruction::Char(c) => {
            if accepts_avoiding(program, input, pc + 1, index + 1, Set::empty()) && 0 <= index
                < input.len() && input[index] == c {
                let next_pc = pc + 1;
                let next_index = index + 1;
                let (end, steps) = choose|end: int, steps: nat|
                    halts_avoiding(program, input, next_pc, next_index, Set::empty(), end, steps);
                assert(halts_avoiding(program, input, pc, index, avoid, end, steps + 1));
            }
        },
        Instruction::Jump(target) => {
            if accepts_avoiding(program, input, target as int, index, more) && !avoid.contains(pc) {
                let (end, steps) = choose|end: int, steps: nat|
                    halts_avoiding(program, input, target as int, index, more, end, steps);
                lemma_avoid_less(program, input, target as int, index, avoid, more, end, steps);
                assert(halts_avoiding(program, input, pc, index, avoid, end, steps + 1));
            }
        },
        Instruction::Split(first, second) => {
            if accepts_avoiding(program, input, first as int, index, more) && !avoid.contains(pc) {
                let (end, steps) = choose|end: int, steps: nat|
                    halts_avoiding(program, input, first as int, index, more, end, steps);
                lemma_avoid_less(program, input, first as int, index, avoid, more, end, steps);
                assert(halts_avoiding(program, input, pc, index, avoid, end, steps + 1));
            }
            if accepts_avoiding(program, input, second as int, index, more) && !avoid.contains(pc) {
                let (end, steps) = choose|end: int, steps: nat|
                    halts_avoiding(program, input, second as int, index, more, end, steps);
                lemma_avoid_less(program, input, second as int, index, avoid, more, end, steps);
                assert(halts_avoiding(program, input, pc, index, avoid, end, steps + 1));
            }
        },
    }
}

/// To accept while avoiding nothing is to accept.
pub proof fn lemma_accepts_avoiding_nothing(
    program: Seq<Instruction>,
    input: Seq<char>,
    pc: int,
    index: int,
)
    ensures
        accepts_avoiding(program, input, pc, index, Set::empty()) == accepts(
            program,
            input,
            pc,
            index,
        ),
{
    if accepts_avoiding(program, input, pc, index, Set::empty()) {
        let (end, steps) = choose|end: int, steps: nat|
            halts_avoiding(program, input, pc, index, Set::empty(), end, steps);
        lemma_avoid_nothing(program, input, pc, index, end, steps);
        assert(halts_at(program, input, pc, index, end));
    }
    if accepts(program, input, pc, index) {
        let end = choose|end: int| halts_at(program, input, pc, index, end);
        let steps = choose|steps: nat| halts_within(program, input, pc, index, end, steps);
        lemma_avoid_nothing(program, input, pc, index, end, steps);
    }
}

/// The addresses that the search is in the middle of with the input read up
/// to `index`: to come back to one of them would be to go round in a circle.
pub open spec fn blocked(trail: Seq<Option<usize>>, index: usize) -> Set<int> {
    Set::new(|pc: int| 0 <= pc < trail.len() && trail[pc] == Some(index))
}

/// How many addresses are not blocked at `index`.
pub open spec fn unblocked(trail: Seq<Option<usize>>, index: usize) -> nat
    decreases trail.len(),
{
    if trail.len() == 0 {
        0
    } else if trail.last() == Some(index) {
        unblocked(trail.drop_last(), index)
    } else {
        unblocked(trail.drop_last(), index) + 1
    }
}

/// To block one more address leaves one less unblocked.
pub proof fn lemma_block(trail: Seq<Option<usize>>, pc: int, index: usize)
    requires
        0 <= pc < trail.len(),
        trail[pc] != Some(index),
    ensures
        unblocked(trail.update(pc, Some(index)), index) + 1 == unblocked(trail, index),
        blocked(trail.update(pc, Some(index)), index) == blocked(trail, index).insert(pc),
    decreases trail.len(),
{
    let after = trail.update(pc, Some(index));
    if pc == trail.len() - 1 {
        assert(after.drop_last() =~= trail.drop_last());
    } else {
        lemma_block(trail.drop_last(), pc, index);
        assert(after.drop_last() =~= trail.drop_last().update(pc, Some(index)));
    }
    assert(blocked(after, index) =~= blocked(trail, index).insert(pc));
}

/// What is left of an input of `len` characters behind `index`.
pub open spec fn unread(len: nat, index: usize) -> nat {
    if index < len {
        (len - index) as nat
    } else {
        0
    }
}

/// The search from `p_counter` at `index`. `trail` holds, for each address,
/// the place in the input at which the search last set out from it and has
/// not come back yet; the search leaves it as it found it.
fn run(
    instructions: &[Instruction],
    chars: &Vec<char>,
    p_counter: usize,
    index: usize,
    trail: &mut Vec<Option<usize>>,
) -> (matched: bool)
    requires
        well_formed(instructions@),
        p_counter < instructions@.len(),
        old(trail)@.len() == instructions@.len(),
        forall|a: int|
            0 <= a < old(trail)@.len() ==> (#[trigger] old(trail)@[a] matches Some(place)
                ==> place <= index),
    ensures
        final(trail)@ == old(trail)@,
        matched == accepts_avoiding(
            instructions@,
            chars@,
            p_counter as int,
            index as int,
            blocked(old(trail)@, index),
        ),
    decreases unread(chars@.len(), index), unblocked(old(trail)@, index),
{
    let mut pc: usize = p_counter;
    let mut at: usize = index;
    loop
        invariant
            well_formed(instructions@),
            pc < instructions@.len(),
            trail@ == old(trail)@,
            trail@.len() == instructions@.len(),
            forall|a: int|
                0 <= a < trail@.len() ==> (#[trigger] trail@[a] matches Some(place) ==> place
                    <= at),
            at == index || (index < at <= chars@.len()),
            accepts_avoiding(instructions@, chars@, pc as int, at as int, blocked(trail@, at))
                == accepts_avoiding(
                instructions@,
                chars@,
                p_counter as int,
                index as int,
                blocked(trail@, index),
            ),
        decreases unread(chars@.len(), at),
    {
        proof {
            lemma_accepts_step(instructions@, chars@, pc as int, at as int, blocked(trail@, at));
        }
        match instructions[pc] {
            Instruction::Char(c) => {
                if at < chars.len() && chars[at] == c {
                    assert(blocked(trail@, (at + 1) as usize) =~= Set::<int>::empty());
                    pc += 1;
                    at += 1;
                } else {
                    return false;
                }
            },
            Instruction::Match => {
                return true;
            },
            Instruction::Jump(counter) => {
                let before: Option<usize> = trail[pc];
                if before == Some(at) {
                    return false;
                }
                proof {
                    lemma_block(trail@, pc as int, at);
                }
                trail[pc] = Some(at);
                let matched = run(instructions, chars, counter, at, trail);
                trail[pc] = before;
                assert(trail@ =~= old(trail)@);
                return matched;
            },
            Instruction::Split(counter1, counter2) => {
                let before: Option<usize> = trail[pc];
                if before == Some(at) {
                    return false;
                }
                proof {
                    lemma_block(trail@, pc as int, at);
                }
                trail[pc] = Some(at);
                let matched = run(instructions, chars, counter1, at, trail) || run(
                    instructions,
                    chars,
                    counter2,
                    at,
                    trail,
                );
                trail[pc] = before;
                assert(trail@ =~= old(trail)@);
                return matched;
            },
        }
    }
}

/// Whether some path of `instructions` leads from `p_counter`, with `chars`
/// read up to `index`, to a `Match`. The first address of a `Split` is tried
/// before the second. A path that comes back to a `Jump` or `Split` without
/// having read a character is given up: it goes round in a circle, so the
/// search ends on every program.
pub fn eval(instructions: &[Instruction], chars: &Vec<char>, p_counter: usize, index: usize) -> (matched: bool)
    requires
        well_formed(instructions@),
        p_counter < instructions@.len(),
    ensures
        matched == accepts(instructions@, chars@, p_counter as int, index as int),
{
    let mut trail: Vec<Option<usize>> = Vec::new();
    for n in 0..instructions.len()
        invariant
            trail@.len() == n,
            forall|pc: int| 0 <= pc < trail@.len() ==> #[trigger] trail@[pc] is None,
    {
        trail.push(None);
    }
    proof {
        assert(blocked(trail@, index) =~= Set::<int>::empty());
        lemma_accepts_avoiding_nothing(instructions@, chars@, p_counter as int, index as int);
    }
    run(instructions, chars, p_counter, index, &mut trail)
}

} // verus!
