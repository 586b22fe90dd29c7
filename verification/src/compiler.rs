//! Programs of the matching machine, and the compiler from syntax trees to
//! programs.
//!
//! The pattern `ab(c|d)` compiles to
//!
//! ```text
//! 0 : Char(a)
//! 1 : Char(b)
//! 2 : Split 3, 5
//! 3 : Char(c)
//! 4 : Jump 6
//! 5 : Char(d)
//! 6 : Match
//! ```

use vstd::prelude::*;
use crate::correctness::lemma_compile_correct;
use crate::evaluator::halts_at;
use crate::language::{spans, Regex};
use crate::parser::{regexes_of, AST};

verus! {

/// One instruction of the matching machine. Addresses are positions in the
/// program, the first instruction at 0.
#[derive(Debug, PartialEq, Eq, Clone, Copy)]
pub enum Instruction {
    /// Consume one character of the input if it is this one; else this path
    /// fails.
    Char(char),
    /// The pattern has matched.
    Match,
    /// Go on at the address.
    Jump(usize),
    /// Go on at the first address; if that path fails, at the second, from
    /// the same place in the input.
    Split(usize, usize),
}

/// The number of instructions that `r` compiles to.
pub open spec fn code_len(r: Regex) -> nat
    decreases r, 0nat,
{
    match r {
        Regex::Char(_) => 1,
        Regex::Plus(inner) => code_len(*inner) + 1,
        Regex::Star(inner) => code_len(*inner) + 2,
        Regex::Question(inner) => code_len(*inner) + 1,
        Regex::Or(left, right) => code_len(*left) + code_len(*right) + 2,
        Regex::Concat(parts) => parts_len(parts, parts.len()),
    }
}

/// The number of instructions that the first `n` of `parts` compile to.
pub open spec fn parts_len(parts: Seq<Regex>, n: nat) -> nat
    decreases parts, n,
{
    if n == 0 || n > parts.len() {
        0
    } else {
        parts_len(parts, (n - 1) as nat) + code_len(parts[n - 1])
    }
}

/// The instructions that `r` compiles to when the first of them stands at
/// address `base`. The path that matches `r` leaves them at the address right
/// behind the last one.
pub open spec fn code(r: Regex, base: nat) -> Seq<Instruction>
    decreases r, 0nat,
{
    match r {
        Regex::Char(c) => seq![Instruction::Char(c)],
        Regex::Plus(inner) => code(*inner, base).push(
            Instruction::Split(base as usize, (base + code_len(*inner) + 1) as usize),
        ),
        Regex::Star(inner) => seq![
            Instruction::Split((base + 1) as usize, (base + code_len(*inner) + 2) as usize),
        ] + code(*inner, base + 1) + seq![Instruction::Jump(base as usize)],
        Regex::Question(inner) => seq![
            Instruction::Split((base + 1) as usize, (base + code_len(*inner) + 1) as usize),
        ] + code(*inner, base + 1),
        Regex::Or(left, right) => seq![
            Instruction::Split((base + 1) as usize, (base + code_len(*left) + 2) as usize),
        ] + code(*left, base + 1) + seq![
            Instruction::Jump((base + code_len(*left) + code_len(*right) + 2) as usize),
        ] + code(*right, base + code_len(*left) + 2),
        Regex::Concat(parts) => parts_code(parts, parts.len(), base),
    }
}

/// The instructions that the first `n` of `parts` compile to, one part after
/// the other from address `base` on.
pub open spec fn parts_code(parts: Seq<Regex>, n: nat, base: nat) -> Seq<Instruction>
    decreases parts, n,
{
    if n == 0 || n > parts.len() {
        Seq::empty()
    } else {
        parts_code(parts, (n - 1) as nat, base) + code(
            parts[n - 1],
            base + parts_len(parts, (n - 1) as nat),
        )
    }
}

/// The program for `r`: its instructions from address 0 on, then `Match`.
pub open spec fn compile_spec(r: Regex) -> Seq<Instruction> {
    code(r, 0).push(Instruction::Match)
}

/// Every address that `instruction` names is below `len`.
pub open spec fn targets_below(instruction: Instruction, len: nat) -> bool {
    match instruction {
        Instruction::Jump(target) => target < len,
        Instruction::Split(first, second) => first < len && second < len,
        _ => true,
    }
}

/// A program that the machine can run: it ends in `Match`, and every address
/// in it is the address of one of its instructions.
pub open spec fn well_formed(program: Seq<Instruction>) -> bool {
    &&& program.len() > 0
    &&& program.last() == Instruction::Match
    &&& forall|pc: int| 0 <= pc < program.len() ==> targets_below(#[trigger] program[pc], program.len())
}

/// How deep the operators of `r` are nested.
pub open spec fn height(r: Regex) -> nat
    decreases r, 0nat,
{
    match r {
        Regex::Char(_) => 0,
        Regex::Plus(inner) => height(*inner) + 1,
        Regex::Star(inner) => height(*inner) + 1,
        Regex::Question(inner) => height(*inner) + 1,
        Regex::Or(left, right) => if height(*left) >= height(*right) {
            height(*left) + 1
        } else {
            height(*right) + 1
        },
        Regex::Concat(parts) => parts_height(parts, parts.len()) + 1,
    }
}

/// The greatest height among the first `n` of `parts`.
pub open spec fn parts_height(parts: Seq<Regex>, n: nat) -> nat
    decreases parts, n,
{
    if n == 0 || n > parts.len() {
        0
    } else if parts_height(parts, (n - 1) as nat) >= height(parts[n - 1]) {
        parts_height(parts, (n - 1) as nat)
    } else {
        height(parts[n - 1])
    }
}

/// No part is higher than the greatest height.
pub proof fn lemma_part_height(parts: Seq<Regex>, n: nat, k: int)
    requires
        0 <= k < n <= parts.len(),
    ensures
        height(parts[k]) <= parts_height(parts, n),
    decreases n,
{
    if k < n - 1 {
        lemma_part_height(parts, (n - 1) as nat, k);
    }
}

/// `code` gives as many instructions as `code_len` says, wherever they stand.
pub proof fn lemma_code_len(r: Regex, base: nat)
    ensures
        code(r, base).len() == code_len(r),
    decreases r, 0nat,
{
    match r {
        Regex::Char(_) => {},
        Regex::Plus(inner) => {
            lemma_code_len(*inner, base);
        },
        Regex::Star(inner) => {
            lemma_code_len(*inner, base + 1);
        },
        Regex::Question(inner) => {
            lemma_code_len(*inner, base + 1);
        },
        Regex::Or(left, right) => {
            lemma_code_len(*left, base + 1);
            lemma_code_len(*right, base + code_len(*left) + 2);
        },
        Regex::Concat(parts) => {
            lemma_parts_code_len(parts, parts.len(), base);
        },
    }
}

/// `parts_code` gives as many instructions as `parts_len` says.
pub proof fn lemma_parts_code_len(parts: Seq<Regex>, n: nat, base: nat)
    ensures
        parts_code(parts, n, base).len() == parts_len(parts, n),
    decreases parts, n,
{
    if n == 0 || n > parts.len() {
    } else {
        lemma_parts_code_len(parts, (n - 1) as nat, base);
        lemma_code_len(parts[n - 1], base + parts_len(parts, (n - 1) as nat));
    }
}

/// `instruction` is no `Match`, and every address that it names is one from
/// `low` to `high`.
pub open spec fn targets_within(instruction: Instruction, low: nat, high: nat) -> bool {
    match instruction {
        Instruction::Char(_) => true,
        Instruction::Match => false,
        Instruction::Jump(target) => low <= target <= high,
        Instruction::Split(first, second) => low <= first <= high && low <= second <= high,
    }
}

/// The instructions for `r` name no address outside their own, but for the
/// one right behind them, and none of them is `Match`.
pub proof fn lemma_code_targets(r: Regex, base: nat)
    requires
        base + code_len(r) <= usize::MAX,
    ensures
        forall|i: int|
            0 <= i < code(r, base).len() ==> targets_within(
                #[trigger] code(r, base)[i],
                base,
                base + code_len(r),
            ),
    decreases r, 0nat,
{
    let high = base + code_len(r);
    match r {
        Regex::Char(c) => {
            assert forall|i: int| 0 <= i < code(r, base).len() implies targets_within(
                #[trigger] code(r, base)[i],
                base,
                high,
            ) by {
                assert(code(r, base)[0] == Instruction::Char(c));
            }
        },
        Regex::Plus(inner) => {
            lemma_code_len(*inner, base);
            lemma_code_targets(*inner, base);
            assert forall|i: int| 0 <= i < code(r, base).len() implies targets_within(
                #[trigger] code(r, base)[i],
                base,
                high,
            ) by {
                if i < code_len(*inner) {
                    assert(code(r, base)[i] == code(*inner, base)[i]);
                }
            }
        },
        Regex::Star(inner) => {
            lemma_code_len(*inner, base + 1);
            lemma_code_targets(*inner, base + 1);
            assert forall|i: int| 0 <= i < code(r, base).len() implies targets_within(
                #[trigger] code(r, base)[i],
                base,
                high,
            ) by {
                if 1 <= i <= code_len(*inner) {
                    assert(code(r, base)[i] == code(*inner, base + 1)[i - 1]);
                }
            }
        },
        Regex::Question(inner) => {
            lemma_code_len(*inner, base + 1);
            lemma_code_targets(*inner, base + 1);
            assert forall|i: int| 0 <= i < code(r, base).len() implies targets_within(
                #[trigger] code(r, base)[i],
                base,
                high,
            ) by {
                if 1 <= i {
                    assert(code(r, base)[i] == code(*inner, base + 1)[i - 1]);
                }
            }
        },
        Regex::Or(left, right) => {
            let second = base + code_len(*left) + 2;
            lemma_code_len(*left, base + 1);
            lemma_code_len(*right, second);
            lemma_code_targets(*left, base + 1);
            lemma_code_targets(*right, second);
            assert forall|i: int| 0 <= i < code(r, base).len() implies targets_within(
                #[trigger] code(r, base)[i],
                base,
                high,
            ) by {
                if 1 <= i <= code_len(*left) {
                    assert(code(r, base)[i] == code(*left, base + 1)[i - 1]);
                } else if i >= code_len(*left) + 2 {
                    assert(code(r, base)[i] == code(*right, second)[i - code_len(*left) - 2]);
                }
            }
        },
        Regex::Concat(parts) => {
            lemma_parts_code_targets(parts, parts.len(), base);
            assert forall|i: int| 0 <= i < code(r, base).len() implies targets_within(
                #[trigger] code(r, base)[i],
                base,
                high,
            ) by {
                assert(code(r, base)[i] == parts_code(parts, parts.len(), base)[i]);
            }
        },
    }
}

/// The same for the instructions of the first `n` of `parts`.
pub proof fn lemma_parts_code_targets(parts: Seq<Regex>, n: nat, base: nat)
    requires
        n <= parts.len(),
        base + parts_len(parts, n) <= usize::MAX,
    ensures
        forall|i: int|
            0 <= i < parts_code(parts, n, base).len() ==> targets_within(
                #[trigger] parts_code(parts, n, base)[i],
                base,
                base + parts_len(parts, n),
            ),
    decreases parts, n,
{
    if n > 0 {
        let before = (n - 1) as nat;
        let last = base + parts_len(parts, before);
        lemma_parts_code_len(parts, before, base);
        lemma_parts_code_targets(parts, before, base);
        lemma_code_targets(parts[n - 1], last);
        assert forall|i: int| 0 <= i < parts_code(parts, n, base).len() implies targets_within(
            #[trigger] parts_code(parts, n, base)[i],
            base,
            base + parts_len(parts, n),
        ) by {
            if i < parts_len(parts, before) {
                assert(parts_code(parts, n, base)[i] == parts_code(parts, before, base)[i]);
            } else {
                assert(parts_code(parts, n, base)[i] == code(parts[n - 1], last)[i - parts_len(
                    parts,
                    before,
                )]);
            }
        }
    }
}

/// The program of a pattern is one that the machine can run.
pub proof fn lemma_compiled_well_formed(r: Regex)
    requires
        code_len(r) < usize::MAX,
    ensures
        well_formed(compile_spec(r)),
{
    let program = compile_spec(r);
    lemma_code_len(r, 0);
    lemma_code_targets(r, 0);
    assert forall|pc: int| 0 <= pc < program.len() implies targets_below(
        #[trigger] program[pc],
        program.len(),
    ) by {
        if pc < code_len(r) {
            assert(program[pc] == code(r, 0)[pc]);
        }
    }
}

/// The program under construction.
#[derive(Debug)]
struct Compiler {
    /// The address of the next instruction.
    p_counter: usize,
    /// The instructions so far.
    instructions: Vec<Instruction>,
}

impl Compiler {
    /// The counter is the address behind the last instruction.
    spec fn wf(&self) -> bool {
        self.p_counter == self.instructions@.len()
    }

    /// A compiler that has emitted nothing yet.
    fn new() -> (compiler: Self)
        ensures
            compiler.wf(),
            compiler.instructions@ == Seq::<Instruction>::empty(),
    {
        Compiler { p_counter: 0, instructions: Vec::new() }
    }

    /// Appends `instruction` and moves the counter behind it.
    fn emit(&mut self, instruction: Instruction)
        requires
            old(self).wf(),
        ensures
            final(self).wf(),
            final(self).instructions@ == old(self).instructions@.push(instruction),
    {
        self.instructions.push(instruction);
        assert(self.instructions.len() == self.p_counter + 1);
        self.p_counter += 1;
    }

    /// Puts `instruction` in the place of the placeholder at `address`.
    fn patch(&mut self, address: usize, instruction: Instruction)
        requires
            old(self).wf(),
            address < old(self).instructions@.len(),
        ensures
            final(self).wf(),
            final(self).instructions@ == old(self).instructions@.update(address as int, instruction),
    {
        self.instructions[address] = instruction;
    }

    /// Appends the instructions for `ast`.
    fn gen_expr(&mut self, ast: &AST)
        requires
            old(self).wf(),
        ensures
            final(self).wf(),
            final(self).instructions@ == old(self).instructions@ + code(
                ast@,
                old(self).instructions@.len(),
            ),
        decreases height(ast@), 0nat,
    {
        match ast {
            AST::Char(c) => self.gen_char(*c),
            AST::Or(e1, e2) => self.gen_or(e1, e2),
            AST::Plus(inner) => self.gen_plus(inner),
            AST::Star(inner) => self.gen_star(inner),
            AST::Question(inner) => self.gen_question(inner),
            AST::Concat(v) => {
                proof {
                    assert(regexes_of(v@).len() == v@.len());
                }
                self.gen_seq(v)
            },
        }
    }

    /// Appends the instruction for a literal.
    fn gen_char(&mut self, c: char)
        requires
            old(self).wf(),
        ensures
            final(self).wf(),
            final(self).instructions@ == old(self).instructions@ + code(
                Regex::Char(c),
                old(self).instructions@.len(),
            ),
    {
        let inst: Instruction = Instruction::Char(c);
        self.emit(inst);
        assert(self.instructions@ =~= old(self).instructions@ + seq![inst]);
    }

    /// Appends the instructions for `ast` under `*`: a split that enters the
    /// loop or leaves it, the body, and a jump back to the split.
    ///
    /// ```text
    /// 0 : split 1, 3
    /// 1 : Char(a)
    /// 2 : jump 0
    /// 3 : ...
    /// ```
    fn gen_star(&mut self, ast: &AST)
        requires
            old(self).wf(),
        ensures
            final(self).wf(),
            final(self).instructions@ == old(self).instructions@ + code(
                Regex::Star(Box::new(ast@)),
                old(self).instructions@.len(),
            ),
        decreases height(ast@), 1nat,
    {
        let ghost start = self.instructions@;
        let split_count: usize = self.p_counter;

        // Neither address of the split is known to exist yet: both are
        // filled in below.
        self.emit(Instruction::Split(split_count, split_count));
        self.gen_expr(ast);
        self.emit(Instruction::Jump(split_count));
        self.patch(split_count, Instruction::Split(split_count + 1, self.p_counter));

        proof {
            lemma_code_len(ast@, (start.len() + 1) as nat);
            assert(self.instructions@ =~= start + code(Regex::Star(Box::new(ast@)), start.len()));
        }
    }

    /// Appends the instructions for `ast` under `+`: the body, and a split
    /// that repeats it or goes on.
    ///
    /// ```text
    /// 0 : Char(a)
    /// 1 : split 0, 2
    /// 2 : ...
    /// ```
    fn gen_plus(&mut self, ast: &AST)
        requires
            old(self).wf(),
        ensures
            final(self).wf(),
            final(self).instructions@ == old(self).instructions@ + code(
                Regex::Plus(Box::new(ast@)),
                old(self).instructions@.len(),
            ),
        decreases height(ast@), 1nat,
    {
        let ghost start = self.instructions@;
        let left: usize = self.p_counter;
        self.gen_expr(ast);

        let split_count: usize = self.p_counter;
        self.emit(Instruction::Split(left, left));
        self.patch(split_count, Instruction::Split(left, self.p_counter));

        proof {
            lemma_code_len(ast@, start.len());
            assert(self.instructions@ =~= start + code(Regex::Plus(Box::new(ast@)), start.len()));
        }
    }

    /// Appends the instructions for `ast` under `?`: a split that enters the
    /// body or skips it, and the body.
    ///
    /// ```text
    /// 0 : split 1, 2
    /// 1 : Char(a)
    /// 2 : ...
    /// ```
    fn gen_question(&mut self, ast: &AST)
        requires
            old(self).wf(),
        ensures
            final(self).wf(),
            final(self).instructions@ == old(self).instructions@ + code(
                Regex::Question(Box::new(ast@)),
                old(self).instructions@.len(),
            ),
        decreases height(ast@), 1nat,
    {
        let ghost start = self.instructions@;
        let split_count: usize = self.p_counter;

        self.emit(Instruction::Split(split_count, split_count));
        self.gen_expr(ast);
        self.patch(split_count, Instruction::Split(split_count + 1, self.p_counter));

        proof {
            lemma_code_len(ast@, (start.len() + 1) as nat);
            assert(self.instructions@ =~= start + code(
                Regex::Question(Box::new(ast@)),
                start.len(),
            ));
        }
    }

    /// Appends the instructions for `expr1 | expr2`: a split between the two,
    /// the first, a jump over the second, and the second.
    ///
    /// ```text
    /// 0 : split 1, 3
    /// 1 : Char(a)
    /// 2 : jump 4
    /// 3 : Char(b)
    /// 4 : ...
    /// ```
    fn gen_or(&mut self, expr1: &AST, expr2: &AST)
        requires
            old(self).wf(),
        ensures
            final(self).wf(),
            final(self).instructions@ == old(self).instructions@ + code(
                Regex::Or(Box::new(expr1@), Box::new(expr2@)),
                old(self).instructions@.len(),
            ),
        decreases
                (if height(expr1@) >= height(expr2@) {
                    height(expr1@)
                } else {
                    height(expr2@)
                }),
                1nat,
    {
        let ghost start = self.instructions@;
        let split_counter: usize = self.p_counter;

        self.emit(Instruction::Split(split_counter, split_counter));
        self.gen_expr(expr1);

        let jump_counter: usize = self.p_counter;
        self.emit(Instruction::Jump(jump_counter));
        self.patch(split_counter, Instruction::Split(split_counter + 1, self.p_counter));

        self.gen_expr(expr2);
        self.patch(jump_counter, Instruction::Jump(self.p_counter));

        proof {
            lemma_code_len(expr1@, (start.len() + 1) as nat);
            lemma_code_len(expr2@, (start.len() + code_len(expr1@) + 2) as nat);
            assert(self.instructions@ =~= start + code(
                Regex::Or(Box::new(expr1@), Box::new(expr2@)),
                start.len(),
            ));
        }
    }

    /// Appends the instructions for each tree of `vec` in turn.
    fn gen_seq(&mut self, vec: &Vec<AST>)
        requires
            old(self).wf(),
        ensures
            final(self).wf(),
            final(self).instructions@ == old(self).instructions@ + code(
                Regex::Concat(regexes_of(vec@)),
                old(self).instructions@.len(),
            ),
        decreases parts_height(regexes_of(vec@), vec@.len()), 1nat,
    {
        let ghost start = self.instructions@;
        let ghost parts = regexes_of(vec@);
        for i in 0..vec.len()
            invariant
                self.wf(),
                parts == regexes_of(vec@),
                self.instructions@ == start + parts_code(parts, i as nat, start.len()),
        {
            proof {
                lemma_part_height(parts, vec@.len(), i as int);
                lemma_parts_code_len(parts, i as nat, start.len());
            }
            let ghost before = self.instructions@;
            self.gen_expr(&vec[i]);
            assert(self.instructions@ =~= start + parts_code(parts, (i + 1) as nat, start.len()));
        }
    }

    /// Appends the instructions for `ast`, and `Match` behind them.
    fn gen_code(&mut self, ast: &AST)
        requires
            old(self).wf(),
            old(self).instructions@.len() == 0,
        ensures
            final(self).instructions@ == compile_spec(ast@),
    {
        self.gen_expr(ast);
        self.instructions.push(Instruction::Match);
        assert(self.instructions@ =~= compile_spec(ast@));
    }
}

/// Compiles `ast` into the program that matches it: the instructions for
/// `ast` from address 0 on, and `Match` behind them. The machine can run the
/// program, and a run from the first instruction can halt exactly at the
/// ends of the stretches of input that the pattern denotes.
pub fn compile(ast: &AST) -> (program: Vec<Instruction>)
    ensures
        program@ == compile_spec(ast@),
        program@.len() == code_len(ast@) + 1,
        code_len(ast@) < usize::MAX,
        well_formed(program@),
        forall|input: Seq<char>, from: int, to: int|
            #![trigger halts_at(program@, input, 0, from, to)]
            #![trigger spans(ast@, input, from, to)]
            halts_at(program@, input, 0, from, to) <==> spans(ast@, input, from, to),
{
    let mut compiler: Compiler = Compiler::new();
    compiler.gen_code(ast);
    proof {
        lemma_code_len(ast@, 0);
        assert(compiler.instructions.len() == code_len(ast@) + 1);
        lemma_compiled_well_formed(ast@);
        assert forall|input: Seq<char>, from: int, to: int|
            halts_at(compile_spec(ast@), input, 0, from, to) <==> spans(
                ast@,
                input,
                from,
                to,
            ) by {
            lemma_compile_correct(ast@, input, from, to);
        }
    }
    compiler.instructions
}

} // verus!
