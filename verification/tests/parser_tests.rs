use regex_vm::parser::{fold_or, parse, parse_escape, parse_qualifier, SyntaxError, AST};

fn lit(c: char) -> AST {
    AST::Char(c)
}

fn cat(parts: Vec<AST>) -> AST {
    AST::Concat(parts)
}

fn or(left: AST, right: AST) -> AST {
    AST::Or(Box::new(left), Box::new(right))
}

#[test]
fn test_escape() {
    assert_eq!(parse("\\*"), Ok(AST::Concat(vec![AST::Char('*')])));
}

#[test]
fn test_qualifier() {
    let plus_ast: AST = AST::Plus(Box::new(AST::Char('a')));
    assert_eq!(parse_qualifier('+', AST::Char('a')), plus_ast);

    let star_ast: AST = AST::Star(Box::new(AST::Char('a')));
    assert_eq!(parse_qualifier('*', AST::Char('a')), star_ast);

    let question_ast: AST = AST::Question(Box::new(AST::Char('a')));
    assert_eq!(parse_qualifier('?', AST::Char('a')), question_ast);
}

#[test]
fn test_parse() {
    let expect_ast: AST = AST::Concat(vec![
        AST::Char('a'),
        AST::Char('b'),
        AST::Char('c'),
        AST::Or(
            Box::new(AST::Concat(vec![AST::Char('d'), AST::Char('e'), AST::Char('f')])),
            Box::new(AST::Concat(vec![AST::Char('g'), AST::Char('h'), AST::Char('i')])),
        ),
    ]);

    let actual_ast = parse("abc(def|ghi)");

    assert_eq!(actual_ast, Ok(expect_ast));
}

#[test]
fn parse_quantifiers_bind_to_the_last_part() {
    assert_eq!(
        parse("ab+c*d?"),
        Ok(cat(vec![
            lit('a'),
            AST::Plus(Box::new(lit('b'))),
            AST::Star(Box::new(lit('c'))),
            AST::Question(Box::new(lit('d'))),
        ]))
    );
}

#[test]
fn parse_quantifier_on_a_group() {
    assert_eq!(
        parse("(ab)*"),
        Ok(cat(vec![AST::Star(Box::new(cat(vec![lit('a'), lit('b')])))]))
    );
}

#[test]
fn parse_stacked_quantifiers() {
    assert_eq!(
        parse("a*?"),
        Ok(cat(vec![AST::Question(Box::new(AST::Star(Box::new(lit('a')))))]))
    );
}

#[test]
fn parse_alternatives_fold_to_the_right() {
    assert_eq!(
        parse("a|b|c"),
        Ok(or(cat(vec![lit('a')]), or(cat(vec![lit('b')]), cat(vec![lit('c')]))))
    );
}

#[test]
fn parse_single_alternative_has_no_or() {
    assert_eq!(parse("ab"), Ok(cat(vec![lit('a'), lit('b')])));
    assert_eq!(parse("(ab)"), Ok(cat(vec![cat(vec![lit('a'), lit('b')])])));
}

#[test]
fn parse_nested_groups() {
    assert_eq!(
        parse("a(b(c|d))"),
        Ok(cat(vec![
            lit('a'),
            cat(vec![lit('b'), or(cat(vec![lit('c')]), cat(vec![lit('d')]))]),
        ]))
    );
}

#[test]
fn parse_group_drops_empty_last_alternative() {
    assert_eq!(parse("(a|)"), Ok(cat(vec![cat(vec![lit('a')])])));
}

#[test]
fn parse_group_keeps_empty_first_alternative() {
    assert_eq!(parse("(|a)"), Ok(cat(vec![or(cat(vec![]), cat(vec![lit('a')]))])));
}

#[test]
fn parse_empty_group() {
    assert_eq!(parse("()"), Ok(cat(vec![cat(vec![])])));
}

#[test]
fn parse_empty_pattern() {
    assert_eq!(parse(""), Ok(cat(vec![])));
}

#[test]
fn parse_pattern_ending_in_bar() {
    assert_eq!(parse("a|"), Ok(or(cat(vec![lit('a')]), cat(vec![]))));
}

#[test]
fn parse_every_escape() {
    assert_eq!(
        parse("\\\\\\(\\)\\|\\+\\*\\?"),
        Ok(cat(vec![lit('\\'), lit('('), lit(')'), lit('|'), lit('+'), lit('*'), lit('?')]))
    );
}

#[test]
fn parse_escaped_literal_takes_a_quantifier() {
    assert_eq!(parse("\\(*"), Ok(cat(vec![AST::Star(Box::new(lit('(')))])));
}

#[test]
fn parse_trailing_backslash_is_dropped() {
    assert_eq!(parse("a\\"), Ok(cat(vec![lit('a')])));
}

#[test]
fn parse_non_ascii_literal() {
    assert_eq!(parse("é|語"), Ok(or(cat(vec![lit('é')]), cat(vec![lit('語')]))));
}

#[test]
fn parse_unmatched_open() {
    assert_eq!(parse("(a"), Err(SyntaxError::UnmatchedOpenParen));
    assert_eq!(parse("((a)"), Err(SyntaxError::UnmatchedOpenParen));
}

#[test]
fn parse_unmatched_close() {
    assert_eq!(parse("a)"), Err(SyntaxError::UnmatchedCloseParen));
    assert_eq!(parse(")"), Err(SyntaxError::UnmatchedCloseParen));
    assert_eq!(parse("(a))"), Err(SyntaxError::UnmatchedCloseParen));
}

#[test]
fn parse_missing_operand() {
    assert_eq!(parse("*a"), Err(SyntaxError::MissingOperand));
    assert_eq!(parse("+"), Err(SyntaxError::MissingOperand));
    assert_eq!(parse("a|?"), Err(SyntaxError::MissingOperand));
    assert_eq!(parse("(*)"), Err(SyntaxError::MissingOperand));
}

#[test]
fn parse_invalid_escape() {
    assert_eq!(parse("\\a"), Err(SyntaxError::InvalidEscape));
    assert_eq!(parse("ab\\n"), Err(SyntaxError::InvalidEscape));
}

#[test]
fn parse_reports_the_first_error() {
    assert_eq!(parse("(*a\\x"), Err(SyntaxError::MissingOperand));
    assert_eq!(parse("\\x)"), Err(SyntaxError::InvalidEscape));
    assert_eq!(parse("a)(*"), Err(SyntaxError::UnmatchedCloseParen));
}

#[test]
fn parse_escape_accepts_the_meta_characters_only() {
    for c in ['\\', '(', ')', '|', '+', '*', '?'] {
        assert_eq!(parse_escape(c), Ok(AST::Char(c)));
    }
    for c in ['a', 'n', ' ', '.', '[', '0'] {
        assert_eq!(parse_escape(c), Err(SyntaxError::InvalidEscape));
    }
}

#[test]
fn fold_or_of_one_is_that_one() {
    assert_eq!(fold_or(vec![lit('a')]), lit('a'));
}

#[test]
fn fold_or_keeps_the_order() {
    assert_eq!(
        fold_or(vec![lit('a'), lit('b'), lit('c'), lit('d')]),
        or(lit('a'), or(lit('b'), or(lit('c'), lit('d'))))
    );
}
