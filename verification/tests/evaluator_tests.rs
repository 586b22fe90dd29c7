use regex_vm::compiler::{compile, Instruction};
use regex_vm::evaluator::eval;
use regex_vm::matcher::{chars_of, pattern_match};
use regex_vm::parser::{parse, SyntaxError, AST};

fn chars(line: &str) -> Vec<char> {
    line.chars().collect()
}

fn matches(pattern: &str, line: &str) -> bool {
    pattern_match(pattern, line).unwrap()
}

/// Where the program of `ast` can halt when started at `from`: the ends `to`
/// for which the program accepts the first `to` characters and no shorter
/// input lets it.
fn halts(ast: &AST, line: &str, from: usize) -> Vec<usize> {
    let program = compile(ast);
    let all = chars(line);
    let mut ends = Vec::new();
    for to in from..=all.len() {
        let mut exact = program.clone();
        let last = exact.len() - 1;
        // End the program with a character that stands only behind the
        // first `to` characters: it then accepts exactly if it can halt there.
        exact[last] = Instruction::Char('\u{0}');
        exact.push(Instruction::Match);
        let mut marked: Vec<char> = all[..to].to_vec();
        marked.push('\u{0}');
        if eval(&exact, &marked, 0, from) {
            ends.push(to);
        }
    }
    ends
}

#[test]
fn test_eval() {
    let insts: Vec<Instruction> = vec![
        Instruction::Char('a'),
        Instruction::Char('b'),
        Instruction::Split(3, 5),
        Instruction::Char('c'),
        Instruction::Jump(6),
        Instruction::Char('d'),
        Instruction::Match,
    ];

    let chars1: Vec<char> = vec!['a', 'b', 'c'];
    assert_eq!(eval(&insts, &chars1, 0, 0), true);

    let chars2: Vec<char> = vec!['a', 'b', 'd'];
    assert_eq!(eval(&insts, &chars2, 0, 0), true);

    let chars3: Vec<char> = vec!['a', 'b', 'X'];
    assert_eq!(eval(&insts, &chars3, 0, 0), false);
}

#[test]
fn scenario_group_with_alternatives() {
    assert_eq!(pattern_match("ab(c|d)", "abc"), Ok(true));
    assert_eq!(pattern_match("ab(c|d)", "abd"), Ok(true));
    assert_eq!(pattern_match("ab(c|d)", "abx"), Ok(false));
}

#[test]
fn scenario_star_then_alternatives() {
    assert_eq!(pattern_match("ab*(de|fg)", "abbbfg"), Ok(true));
}

#[test]
fn scenario_question_then_star() {
    assert_eq!(pattern_match("a?b(d*e|fg)", "bdde"), Ok(true));
}

#[test]
fn scenario_no_match_at_the_start() {
    assert_eq!(pattern_match("a?b(d*e|fg)", "cbfg"), Ok(false));
}

#[test]
fn scenario_unbalanced_pattern() {
    assert_eq!(pattern_match("(a", "a"), Err(SyntaxError::UnmatchedOpenParen));
    assert_eq!(parse("(a"), Err(SyntaxError::UnmatchedOpenParen));
}

#[test]
fn scenario_quantifier_without_operand() {
    assert_eq!(pattern_match("*a", "a"), Err(SyntaxError::MissingOperand));
    assert_eq!(parse("*a"), Err(SyntaxError::MissingOperand));
}

#[test]
fn pattern_match_passes_on_every_error() {
    assert_eq!(pattern_match("a)", "a"), Err(SyntaxError::UnmatchedCloseParen));
    assert_eq!(pattern_match("\\a", "a"), Err(SyntaxError::InvalidEscape));
}

#[test]
fn match_needs_only_a_prefix() {
    assert!(matches("ab", "abcdef"));
    assert!(!matches("ab", "xab"));
    assert!(!matches("abc", "ab"));
}

#[test]
fn empty_pattern_matches_everything() {
    assert!(matches("", ""));
    assert!(matches("", "abc"));
    assert!(matches("()", "abc"));
}

#[test]
fn input_ending_early_is_no_match() {
    assert!(!matches("a", ""));
    assert!(!matches("aaa", "aa"));
    assert!(!matches("a+", ""));
}

#[test]
fn escaped_meta_characters_match_themselves() {
    assert!(matches("\\*", "*"));
    assert!(!matches("\\*", "a"));
    assert!(matches("a\\+b", "a+b"));
    assert!(!matches("a\\+b", "aab"));
    assert!(matches("\\(\\)", "()"));
}

#[test]
fn characters_compare_by_code_point() {
    assert!(matches("é+語", "ééé語"));
    assert!(!matches("é", "e"));
    assert!(!matches("a", "A"));
}

#[test]
fn eval_starts_where_it_is_told() {
    let program = compile(&parse("bc").unwrap());
    let line = chars("abc");
    assert!(!eval(&program, &line, 0, 0));
    assert!(eval(&program, &line, 0, 1));
    assert!(eval(&program, &line, 1, 2));
    assert!(eval(&program, &line, 2, 0));
    assert!(eval(&program, &line, 2, 3));
}

#[test]
fn eval_with_index_behind_the_input() {
    let program = compile(&parse("a").unwrap());
    let line = chars("a");
    assert!(!eval(&program, &line, 0, 1));
    assert!(!eval(&program, &line, 0, 7));
    assert!(eval(&program, &line, 1, 7));
    let optional = compile(&parse("a?").unwrap());
    assert!(eval(&optional, &line, 0, 7));
    assert!(eval(&optional, &line, 0, usize::MAX));
}

#[test]
fn eval_tries_the_second_branch_from_the_same_place() {
    assert!(matches("(ab|ac)d", "acd"));
    assert!(matches("(a|ab)c", "abc"));
    assert!(matches("a*ab", "aaab"));
    assert!(!matches("a*ab", "aaac"));
}

#[test]
fn eval_ends_on_loops_that_read_nothing() {
    assert!(matches("(a*)*", "b"));
    assert!(matches("(a*)*b", "aab"));
    assert!(!matches("(a*)*b", "aac"));
    assert!(matches("(a?)+", ""));
    assert!(matches("(|)*", "x"));
    assert!(!matches("(a*)+b", "c"));
    assert!(!matches("((a|)*|b*)*c", "aabbab"));
}

#[test]
fn eval_ends_on_a_program_that_only_jumps() {
    let line = chars("a");
    let round = vec![Instruction::Jump(1), Instruction::Jump(0), Instruction::Match];
    assert!(!eval(&round, &line, 0, 0));
    assert!(eval(&round, &line, 2, 0));
    let itself = vec![Instruction::Split(0, 1), Instruction::Match];
    assert!(eval(&itself, &line, 0, 0));
    let reading = vec![
        Instruction::Char('a'),
        Instruction::Split(0, 2),
        Instruction::Jump(1),
        Instruction::Match,
    ];
    assert!(!eval(&reading, &chars("aaaa"), 0, 0));
}

#[test]
fn eval_twice_gives_the_same() {
    for pattern in ["ab(c|d)", "a?b(d*e|fg)", "(a*)*b", "(a|b)*c"] {
        let program = compile(&parse(pattern).unwrap());
        for line in ["", "abc", "abd", "bdde", "cbfg", "aab", "ababc", "abab"] {
            let line = chars(line);
            let first = eval(&program, &line, 0, 0);
            let second = eval(&program, &line, 0, 0);
            assert_eq!(first, second);
        }
    }
}

#[test]
fn concatenation_halts_where_the_second_part_does() {
    let first = parse("a*").unwrap();
    let second = parse("ab?").unwrap();
    let both = AST::Concat(vec![parse("a*").unwrap(), parse("ab?").unwrap()]);
    let line = "aaabc";
    assert_eq!(halts(&first, line, 0), vec![0, 1, 2, 3]);
    assert_eq!(halts(&second, line, 2), vec![3, 4]);
    let mut expected: Vec<usize> = Vec::new();
    for mid in halts(&first, line, 0) {
        for to in halts(&second, line, mid) {
            if !expected.contains(&to) {
                expected.push(to);
            }
        }
    }
    expected.sort();
    assert_eq!(expected, vec![1, 2, 3, 4]);
    assert_eq!(halts(&both, line, 0), expected);
}

#[test]
fn alternation_accepts_what_either_side_accepts() {
    for (left, right) in [("ab", "cd"), ("a", "ab"), ("a*", "b"), ("x", "y")] {
        let one = format!("({})|({})", left, right);
        let other = format!("({})|({})", right, left);
        for line in ["", "a", "ab", "cd", "b", "c", "zab"] {
            let either = matches(left, line) || matches(right, line);
            assert_eq!(matches(&one, line), either);
            assert_eq!(matches(&other, line), either);
        }
    }
}

#[test]
fn star_is_zero_or_more() {
    let star = AST::Star(Box::new(parse("ab").unwrap()));
    assert_eq!(halts(&star, "abababx", 0), vec![0, 2, 4, 6]);
    assert_eq!(halts(&star, "x", 0), vec![0]);
}

#[test]
fn plus_is_one_or_more() {
    let plus = AST::Plus(Box::new(parse("ab").unwrap()));
    assert_eq!(halts(&plus, "abababx", 0), vec![2, 4, 6]);
    assert_eq!(halts(&plus, "x", 0), Vec::<usize>::new());
}

#[test]
fn question_is_zero_or_one() {
    let question = AST::Question(Box::new(parse("ab").unwrap()));
    assert_eq!(halts(&question, "abababx", 0), vec![0, 2]);
    assert_eq!(halts(&question, "x", 0), vec![0]);
}

#[test]
fn chars_of_keeps_every_character() {
    assert_eq!(chars_of(""), Vec::<char>::new());
    assert_eq!(chars_of("aé語"), vec!['a', 'é', '語']);
}
