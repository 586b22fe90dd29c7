use regex_vm::compiler::{compile, Instruction};
use regex_vm::parser::{parse, AST};

fn program(pattern: &str) -> Vec<Instruction> {
    compile(&parse(pattern).unwrap())
}

#[test]
fn compile_literal() {
    assert_eq!(compile(&AST::Char('a')), vec![Instruction::Char('a'), Instruction::Match]);
}

#[test]
fn compile_empty_concatenation() {
    assert_eq!(compile(&AST::Concat(vec![])), vec![Instruction::Match]);
}

#[test]
fn compile_group_with_alternatives() {
    assert_eq!(
        program("ab(c|d)"),
        vec![
            Instruction::Char('a'),
            Instruction::Char('b'),
            Instruction::Split(3, 5),
            Instruction::Char('c'),
            Instruction::Jump(6),
            Instruction::Char('d'),
            Instruction::Match,
        ]
    );
}

#[test]
fn compile_star() {
    assert_eq!(
        compile(&AST::Star(Box::new(AST::Char('a')))),
        vec![
            Instruction::Split(1, 3),
            Instruction::Char('a'),
            Instruction::Jump(0),
            Instruction::Match,
        ]
    );
}

#[test]
fn compile_plus() {
    assert_eq!(
        compile(&AST::Plus(Box::new(AST::Char('a')))),
        vec![Instruction::Char('a'), Instruction::Split(0, 2), Instruction::Match]
    );
}

#[test]
fn compile_question() {
    assert_eq!(
        compile(&AST::Question(Box::new(AST::Char('a')))),
        vec![Instruction::Split(1, 2), Instruction::Char('a'), Instruction::Match]
    );
}

#[test]
fn compile_or() {
    assert_eq!(
        compile(&AST::Or(Box::new(AST::Char('a')), Box::new(AST::Char('b')))),
        vec![
            Instruction::Split(1, 3),
            Instruction::Char('a'),
            Instruction::Jump(4),
            Instruction::Char('b'),
            Instruction::Match,
        ]
    );
}

#[test]
fn compile_addresses_are_absolute() {
    assert_eq!(
        program("xa*(b|c+)?"),
        vec![
            Instruction::Char('x'),
            Instruction::Split(2, 4),
            Instruction::Char('a'),
            Instruction::Jump(1),
            Instruction::Split(5, 10),
            Instruction::Split(6, 8),
            Instruction::Char('b'),
            Instruction::Jump(10),
            Instruction::Char('c'),
            Instruction::Split(8, 10),
            Instruction::Match,
        ]
    );
}

#[test]
fn compile_nested_star() {
    assert_eq!(
        program("(a*)*"),
        vec![
            Instruction::Split(1, 5),
            Instruction::Split(2, 4),
            Instruction::Char('a'),
            Instruction::Jump(1),
            Instruction::Jump(0),
            Instruction::Match,
        ]
    );
}

#[test]
fn compile_ends_in_match_and_stays_in_range() {
    for pattern in ["", "a", "a|b|c", "(ab)*c+", "((a|b)?c)*", "a?b(d*e|fg)"] {
        let program = program(pattern);
        assert_eq!(program.last(), Some(&Instruction::Match));
        for instruction in &program {
            match instruction {
                Instruction::Jump(target) => assert!(*target < program.len()),
                Instruction::Split(first, second) => {
                    assert!(*first < program.len());
                    assert!(*second < program.len());
                }
                _ => {}
            }
        }
    }
}
