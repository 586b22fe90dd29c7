//! Patterns as syntax trees, and the parser that builds them.

use vstd::prelude::*;
use crate::language::Regex;

verus! {

/// Why a pattern was rejected.
#[derive(Debug, PartialEq, Eq, Clone, Copy)]
pub enum SyntaxError {
    /// A `(` that no `)` closes.
    UnmatchedOpenParen,
    /// A `)` with no group open.
    UnmatchedCloseParen,
    /// A `+`, `*` or `?` with nothing before it to repeat.
    MissingOperand,
    /// A `\` followed by a character that is not one of `\ ( ) | + * ?`.
    InvalidEscape,
}

/// The syntax tree of a pattern.
#[derive(Debug, PartialEq)]
pub enum AST {
    /// A literal character.
    Char(char),
    /// `+`: one or more repetitions.
    Plus(Box<AST>),
    /// `*`: zero or more repetitions.
    Star(Box<AST>),
    /// `?`: zero or one occurrence.
    Question(Box<AST>),
    /// `|`: the left alternative is tried before the right one.
    Or(Box<AST>, Box<AST>),
    /// Concatenation, left to right.
    Concat(Vec<AST>),
}

/// The pattern that a syntax tree stands for.
pub open spec fn regex_of(ast: AST) -> Regex
    decreases ast,
{
    match ast {
        AST::Char(c) => Regex::Char(c),
        AST::Plus(inner) => Regex::Plus(Box::new(regex_of(*inner))),
        AST::Star(inner) => Regex::Star(Box::new(regex_of(*inner))),
        AST::Question(inner) => Regex::Question(Box::new(regex_of(*inner))),
        AST::Or(left, right) => Regex::Or(Box::new(regex_of(*left)), Box::new(regex_of(*right))),
        AST::Concat(parts) => Regex::Concat(regexes_of(parts@)),
    }
}

/// The patterns that a row of syntax trees stands for, in the same order.
pub open spec fn regexes_of(parts: Seq<AST>) -> Seq<Regex>
    decreases parts,
{
    Seq::new(
        parts.len(),
        |i: int|
            if 0 <= i < parts.len() {
                regex_of(parts[i])
            } else {
                Regex::Concat(Seq::empty())
            },
    )
}

impl View for AST {
    type V = Regex;

    open spec fn view(&self) -> Regex {
        regex_of(*self)
    }
}

/// The characters that have a meaning of their own in a pattern, and that `\`
/// turns into literals.
pub open spec fn is_meta(c: char) -> bool {
    c == '\\' || c == '(' || c == ')' || c == '|' || c == '+' || c == '*' || c == '?'
}

/// The characters that repeat what stands before them.
pub open spec fn is_quantifier(c: char) -> bool {
    c == '+' || c == '*' || c == '?'
}

/// `operand` under the quantifier `c`.
pub open spec fn quantified(c: char, operand: Regex) -> Regex
    recommends
        is_quantifier(c),
{
    if c == '+' {
        Regex::Plus(Box::new(operand))
    } else if c == '*' {
        Regex::Star(Box::new(operand))
    } else {
        Regex::Question(Box::new(operand))
    }
}

/// The alternatives `a1, .., an` as one pattern: `a1` alone when `n` is 1,
/// else `Or(a1, Or(a2, .. an))`, so that an earlier alternative is tried first.
pub open spec fn fold_alternatives(alts: Seq<Regex>) -> Regex
    recommends
        alts.len() >= 1,
    decreases alts.len(),
{
    if alts.len() <= 1 {
        alts[0]
    } else {
        Regex::Or(Box::new(alts[0]), Box::new(fold_alternatives(alts.drop_first())))
    }
}

/// What the parser holds between two characters.
pub struct ParseState {
    /// The parts of the alternative that is being read.
    pub parts: Seq<Regex>,
    /// The alternatives of the innermost open group that are complete.
    pub alternatives: Seq<Regex>,
    /// For each open group, outermost first, the parts and alternatives that
    /// were being read when it was opened.
    pub open_groups: Seq<(Seq<Regex>, Seq<Regex>)>,
    /// The last character was a `\` that is not itself escaped.
    pub escaped: bool,
}

/// The alternatives of a group at its `)`: the last one is left out when it is
/// empty and follows a `|`.
pub open spec fn group_alternatives(s: ParseState) -> Seq<Regex> {
    if s.parts.len() == 0 && s.alternatives.len() > 0 {
        s.alternatives
    } else {
        s.alternatives.push(Regex::Concat(s.parts))
    }
}

/// The state before the first character.
pub open spec fn initial_state() -> ParseState {
    ParseState {
        parts: Seq::empty(),
        alternatives: Seq::empty(),
        open_groups: Seq::empty(),
        escaped: false,
    }
}

/// The state after reading `c` in state `s`, or the reason why `c` cannot
/// stand there.
pub open spec fn step(s: ParseState, c: char) -> Result<ParseState, SyntaxError> {
    if s.escaped {
        if is_meta(c) {
            Ok(ParseState { parts: s.parts.push(Regex::Char(c)), escaped: false, ..s })
        } else {
            Err(SyntaxError::InvalidEscape)
        }
    } else if is_quantifier(c) {
        if s.parts.len() == 0 {
            Err(SyntaxError::MissingOperand)
        } else {
            Ok(ParseState { parts: s.parts.drop_last().push(quantified(c, s.parts.last())), ..s })
        }
    } else if c == '|' {
        Ok(
            ParseState {
                parts: Seq::empty(),
                alternatives: s.alternatives.push(Regex::Concat(s.parts)),
                ..s
            },
        )
    } else if c == '(' {
        Ok(
            ParseState {
                parts: Seq::empty(),
                alternatives: Seq::empty(),
                open_groups: s.open_groups.push((s.parts, s.alternatives)),
                escaped: false,
            },
        )
    } else if c == ')' {
        if s.open_groups.len() == 0 {
            Err(SyntaxError::UnmatchedCloseParen)
        } else {
            Ok(
                ParseState {
                    parts: s.open_groups.last().0.push(fold_alternatives(group_alternatives(s))),
                    alternatives: s.open_groups.last().1,
                    open_groups: s.open_groups.drop_last(),
                    escaped: false,
                },
            )
        }
    } else if c == '\\' {
        Ok(ParseState { escaped: true, ..s })
    } else {
        Ok(ParseState { parts: s.parts.push(Regex::Char(c)), ..s })
    }
}

/// The state after the first `n` characters of `pattern`, or the error of the
/// first character among them that cannot stand where it does.
pub open spec fn scan(pattern: Seq<char>, n: nat) -> Result<ParseState, SyntaxError>
    decreases n,
{
    if n == 0 {
        Ok(initial_state())
    } else {
        match scan(pattern, (n - 1) as nat) {
            Ok(s) => step(s, pattern[n - 1]),
            Err(e) => Err(e),
        }
    }
}

/// The pattern read when the input ends in state `s`: every group must be
/// closed, and the part after the last `|` is an alternative even when empty.
pub open spec fn finish(s: ParseState) -> Result<Regex, SyntaxError> {
    if s.open_groups.len() > 0 {
        Err(SyntaxError::UnmatchedOpenParen)
    } else {
        Ok(fold_alternatives(s.alternatives.push(Regex::Concat(s.parts))))
    }
}

/// What a pattern text means: the pattern it denotes, or why it denotes none.
pub open spec fn parse_spec(pattern: Seq<char>) -> Result<Regex, SyntaxError> {
    match scan(pattern, pattern.len()) {
        Ok(s) => finish(s),
        Err(e) => Err(e),
    }
}

/// The character at `i` stands behind a `\\` that is not itself escaped, and
/// so is to be taken literally.
pub open spec fn escaped_at(pattern: Seq<char>, i: nat) -> bool
    decreases i,
{
    i > 0 && pattern[i - 1] == '\\' && !escaped_at(pattern, (i - 1) as nat)
}

/// How many groups are open where the character at `i` stands.
pub open spec fn depth_at(pattern: Seq<char>, i: nat) -> int
    decreases i,
{
    if i == 0 {
        0
    } else if escaped_at(pattern, (i - 1) as nat) {
        depth_at(pattern, (i - 1) as nat)
    } else if pattern[i - 1] == '(' {
        depth_at(pattern, (i - 1) as nat) + 1
    } else if pattern[i - 1] == ')' {
        depth_at(pattern, (i - 1) as nat) - 1
    } else {
        depth_at(pattern, (i - 1) as nat)
    }
}

/// Something stands before the character at `i` that a quantifier there can
/// repeat: `i` is neither the start of the pattern nor the start of a group
/// or of an alternative.
pub open spec fn operand_at(pattern: Seq<char>, i: nat) -> bool {
    i > 0 && (escaped_at(pattern, (i - 1) as nat) || (pattern[i - 1] != '(' && pattern[i - 1]
        != '|'))
}

/// What is wrong with the character at `i`, if anything, given that nothing
/// is wrong before it.
pub open spec fn error_at(pattern: Seq<char>, i: nat) -> Option<SyntaxError> {
    if escaped_at(pattern, i) {
        if is_meta(pattern[i as int]) {
            None
        } else {
            Some(SyntaxError::InvalidEscape)
        }
    } else if is_quantifier(pattern[i as int]) && !operand_at(pattern, i) {
        Some(SyntaxError::MissingOperand)
    } else if pattern[i as int] == ')' && depth_at(pattern, i) == 0 {
        Some(SyntaxError::UnmatchedCloseParen)
    } else {
        None
    }
}

/// Nothing is wrong with the first `n` characters.
pub open spec fn clean_before(pattern: Seq<char>, n: nat) -> bool {
    forall|i: nat| i < n ==> #[trigger] error_at(pattern, i) is None
}

/// The state `s` knows of the first `n` characters whether the next one is
/// escaped, how many groups are open and whether a quantifier can follow.
pub open spec fn agrees(s: ParseState, pattern: Seq<char>, n: nat) -> bool {
    &&& s.escaped == escaped_at(pattern, n)
    &&& s.open_groups.len() == depth_at(pattern, n)
    &&& !s.escaped ==> (s.parts.len() > 0 <==> operand_at(pattern, n))
}

/// A step fails exactly if something is wrong with its character, and with
/// what is wrong with it; a state that knows the characters before knows
/// this one too after the step.
pub proof fn lemma_step_result(pattern: Seq<char>, m: nat, s: ParseState, c: char)
    requires
        m < pattern.len(),
        c == pattern[m as int],
        agrees(s, pattern, m),
    ensures
        match step(s, c) {
            Ok(t) => error_at(pattern, m) is None && agrees(t, pattern, m + 1),
            Err(e) => error_at(pattern, m) == Some(e),
        },
{
    match step(s, c) {
        Ok(t) => {
            if s.escaped || !is_meta(c) {
                assert(t.parts.len() == s.parts.len() + 1);
            } else if is_quantifier(c) {
                assert(t.parts.len() == s.parts.len());
            } else if c == ')' {
                assert(t.parts.len() == s.open_groups.last().0.len() + 1);
            } else if c != '\\' {
                assert(t.parts.len() == 0);
            }
        },
        Err(e) => {},
    }
}

/// The scan of the first `n` characters fails exactly if something is wrong
/// with one of them, and with what is wrong with the first such; where it
/// does not fail, its state knows those characters.
pub proof fn lemma_scan_result(pattern: Seq<char>, n: nat)
    requires
        n <= pattern.len(),
    ensures
        match scan(pattern, n) {
            Ok(s) => clean_before(pattern, n) && agrees(s, pattern, n),
            Err(e) => exists|i: nat|
                i < n && clean_before(pattern, i) && #[trigger] error_at(pattern, i) == Some(e),
        },
    decreases n,
{
    if n > 0 {
        let m = (n - 1) as nat;
        lemma_scan_result(pattern, m);
        match scan(pattern, m) {
            Ok(s) => {
                lemma_step_result(pattern, m, s, pattern[m as int]);
            },
            Err(e) => {
                let i = choose|i: nat|
                    i < m && clean_before(pattern, i) && #[trigger] error_at(pattern, i) == Some(
                        e,
                    );
                assert(i < n && clean_before(pattern, i) && error_at(pattern, i) == Some(e));
            },
        }
    }
}

/// Which patterns parse: those in which nothing is wrong with any character
/// and every group is closed. Of the others, one with something wrong with a
/// character has the error of the first such character, and one with nothing
/// but a group left open has that error.
pub proof fn lemma_parse_result(pattern: Seq<char>)
    ensures
        match parse_spec(pattern) {
            Ok(_) => clean_before(pattern, pattern.len()) && depth_at(pattern, pattern.len()) == 0,
            Err(SyntaxError::UnmatchedOpenParen) => clean_before(pattern, pattern.len())
                && depth_at(pattern, pattern.len()) > 0,
            Err(e) => exists|i: nat|
                i < pattern.len() && clean_before(pattern, i) && #[trigger] error_at(pattern, i)
                    == Some(e),
        },
{
    lemma_scan_result(pattern, pattern.len());
}

/// An error, once met, is the result of every longer scan.
pub proof fn lemma_scan_error_stays(pattern: Seq<char>, k: nat, n: nat)
    requires
        k <= n,
        scan(pattern, k) is Err,
    ensures
        scan(pattern, n) == scan(pattern, k),
    decreases n,
{
    if k < n {
        lemma_scan_error_stays(pattern, k, (n - 1) as nat);
    }
}

/// Folding is the same whether the last two alternatives are joined before
/// or by the fold.
pub proof fn lemma_fold_last_two(alts: Seq<Regex>, a: Regex, b: Regex)
    ensures
        fold_alternatives(alts.push(a).push(b)) == fold_alternatives(
            alts.push(Regex::Or(Box::new(a), Box::new(b))),
        ),
    decreases alts.len(),
{
    let joined = Regex::Or(Box::new(a), Box::new(b));
    if alts.len() == 0 {
        assert(alts.push(a).push(b).drop_first() =~= seq![b]);
        assert(fold_alternatives(seq![b]) == b);
        assert(alts.push(joined) =~= seq![joined]);
    } else {
        lemma_fold_last_two(alts.drop_first(), a, b);
        assert(alts.push(a).push(b).drop_first() =~= alts.drop_first().push(a).push(b));
        assert(alts.push(joined).drop_first() =~= alts.drop_first().push(joined));
    }
}

/// The node for the character `c` itself. Of a character that comes out of
/// an iterator Verus does not know that it lies in the range of `char`, and
/// so not what a node made of it stands for; of the result of a call it does.
fn literal(c: char) -> (ast: AST)
    ensures
        ast == AST::Char(c),
{
    AST::Char(c)
}

/// The literal that an escaped `c` stands for.
pub fn parse_escape(c: char) -> (result: Result<AST, SyntaxError>)
    ensures
        is_meta(c) ==> result == Ok::<AST, SyntaxError>(AST::Char(c)),
        !is_meta(c) ==> result == Err::<AST, SyntaxError>(SyntaxError::InvalidEscape),
{
    if c == '\\' || c == '(' || c == ')' || c == '|' || c == '+' || c == '*' || c == '?' {
        Ok(AST::Char(c))
    } else {
        Err(SyntaxError::InvalidEscape)
    }
}

/// `prev` under the quantifier `c`.
pub fn parse_qualifier(c: char, prev: AST) -> (ast: AST)
    requires
        is_quantifier(c),
    ensures
        ast@ == quantified(c, prev@),
        c == '+' ==> ast == AST::Plus(Box::new(prev)),
        c == '*' ==> ast == AST::Star(Box::new(prev)),
        c == '?' ==> ast == AST::Question(Box::new(prev)),
{
    if c == '+' {
        AST::Plus(Box::new(prev))
    } else if c == '*' {
        AST::Star(Box::new(prev))
    } else {
        AST::Question(Box::new(prev))
    }
}

/// The alternatives of `seq_or` as one tree, the earlier ones outermost.
pub fn fold_or(seq_or: Vec<AST>) -> (ast: AST)
    requires
        seq_or.len() >= 1,
    ensures
        ast@ == fold_alternatives(regexes_of(seq_or@)),
{
    let mut rest = seq_or;
    let mut ast: AST = rest.pop().unwrap();
    proof {
        assert(regexes_of(rest@).push(ast@) =~= regexes_of(seq_or@));
    }
    while rest.len() > 0
        invariant
            fold_alternatives(regexes_of(rest@).push(ast@)) == fold_alternatives(
                regexes_of(seq_or@),
            ),
        decreases rest.len(),
    {
        let ghost before = rest@;
        let ghost right = ast@;
        let left: AST = rest.pop().unwrap();
        ast = AST::Or(Box::new(left), Box::new(ast));
        proof {
            lemma_fold_last_two(regexes_of(rest@), left@, right);
            assert(regexes_of(before) =~= regexes_of(rest@).push(left@));
        }
    }
    proof {
        assert(regexes_of(rest@).push(ast@) =~= seq![ast@]);
    }
    ast
}

/// The saved groups of a running parse as mathematical values.
pub open spec fn frames_of(stack: Seq<(Vec<AST>, Vec<AST>)>) -> Seq<(Seq<Regex>, Seq<Regex>)> {
    Seq::new(stack.len(), |i: int| (regexes_of(stack[i].0@), regexes_of(stack[i].1@)))
}

/// The state that a running parse is in.
pub open spec fn state_of(
    seq: Seq<AST>,
    seq_or: Seq<AST>,
    stack: Seq<(Vec<AST>, Vec<AST>)>,
    is_escape: bool,
) -> ParseState {
    ParseState {
        parts: regexes_of(seq),
        alternatives: regexes_of(seq_or),
        open_groups: frames_of(stack),
        escaped: is_escape,
    }
}

/// Reads `pattern` from left to right and returns its syntax tree, or the
/// error of the first character that cannot stand where it does; a group left
/// open is found at the end. It succeeds exactly if nothing is wrong with any
/// character and every group is closed.
pub fn parse(pattern: &str) -> (result: Result<AST, SyntaxError>)
    ensures
        match parse_spec(pattern@) {
            Ok(r) => result matches Ok(ast) && ast@ == r,
            Err(e) => result == Err::<AST, SyntaxError>(e),
        },
        result is Ok <==> clean_before(pattern@, pattern@.len()) && depth_at(
            pattern@,
            pattern@.len(),
        ) == 0,
{
    let mut seq: Vec<AST> = Vec::new();
    let mut seq_or: Vec<AST> = Vec::new();
    let mut stack: Vec<(Vec<AST>, Vec<AST>)> = Vec::new();
    let mut is_escape: bool = false;

    proof {
        assert(state_of(seq@, seq_or@, stack@, is_escape).parts =~= initial_state().parts);
        assert(state_of(seq@, seq_or@, stack@, is_escape).alternatives
            =~= initial_state().alternatives);
        assert(state_of(seq@, seq_or@, stack@, is_escape).open_groups
            =~= initial_state().open_groups);
    }
    for c in it: pattern.chars()
        invariant
            it.seq() == pattern@,
            scan(pattern@, it.index() as nat) == Ok::<ParseState, SyntaxError>(
                state_of(seq@, seq_or@, stack@, is_escape),
            ),
    {
        let ghost n = (it.index() + 1) as nat;
        let ghost before = state_of(seq@, seq_or@, stack@, is_escape);
        assert(scan(pattern@, n) == step(before, c));
        if is_escape {
            is_escape = false;
            match parse_escape(c) {
                Ok(ast) => {
                    seq.push(ast);
                    assert(regexes_of(seq@) =~= before.parts.push(Regex::Char(c)));
                },
                Err(e) => {
                    proof {
                        lemma_scan_error_stays(pattern@, n, pattern@.len());
                        lemma_parse_result(pattern@);
                    }
                    return Err(e);
                },
            }
        } else if c == '+' || c == '*' || c == '?' {
            match seq.pop() {
                None => {
                    proof {
                        lemma_scan_error_stays(pattern@, n, pattern@.len());
                        lemma_parse_result(pattern@);
                    }
                    return Err(SyntaxError::MissingOperand);
                },
                Some(prev_ast) => {
                    assert(regexes_of(seq@) =~= before.parts.drop_last());
                    assert(prev_ast@ == before.parts.last());
                    let ast: AST = parse_qualifier(c, prev_ast);
                    seq.push(ast);
                    assert(regexes_of(seq@) =~= before.parts.drop_last().push(
                        quantified(c, before.parts.last()),
                    ));
                },
            }
        } else if c == '|' {
            seq_or.push(AST::Concat(seq));
            seq = Vec::new();
            assert(regexes_of(seq_or@) =~= before.alternatives.push(Regex::Concat(before.parts)));
            assert(regexes_of(seq@) =~= Seq::<Regex>::empty());
        } else if c == '(' {
            stack.push((seq, seq_or));
            seq = Vec::new();
            seq_or = Vec::new();
            assert(regexes_of(seq@) =~= Seq::<Regex>::empty());
            assert(regexes_of(seq_or@) =~= Seq::<Regex>::empty());
            assert(frames_of(stack@) =~= before.open_groups.push(
                (before.parts, before.alternatives),
            ));
        } else if c == ')' {
            match stack.pop() {
                None => {
                    proof {
                        lemma_scan_error_stays(pattern@, n, pattern@.len());
                        lemma_parse_result(pattern@);
                    }
                    return Err(SyntaxError::UnmatchedCloseParen);
                },
                Some(frame) => {
                    let (outer, prev_or) = frame;
                    let mut prev = outer;
                    assert(frames_of(stack@) =~= before.open_groups.drop_last());
                    assert(regexes_of(prev@) == before.open_groups.last().0);
                    assert(regexes_of(prev_or@) == before.open_groups.last().1);
                    if !seq.is_empty() || seq_or.is_empty() {
                        seq_or.push(AST::Concat(seq));
                    }
                    assert(regexes_of(seq_or@) =~= group_alternatives(before));
                    let group: AST = fold_or(seq_or);
                    prev.push(group);
                    assert(regexes_of(prev@) =~= before.open_groups.last().0.push(
                        fold_alternatives(group_alternatives(before)),
                    ));
                    seq = prev;
                    seq_or = prev_or;
                },
            }
        } else if c == '\\' {
            is_escape = true;
        } else {
            let ast: AST = literal(c);
            assert(ast@ == Regex::Char(c));
            seq.push(ast);
            assert(regexes_of(seq@) =~= before.parts.push(Regex::Char(c)));
        }
    }

    let ghost last = state_of(seq@, seq_or@, stack@, is_escape);
    proof {
        lemma_parse_result(pattern@);
    }
    if !stack.is_empty() {
        return Err(SyntaxError::UnmatchedOpenParen);
    }
    seq_or.push(AST::Concat(seq));
    assert(regexes_of(seq_or@) =~= last.alternatives.push(Regex::Concat(last.parts)));
    Ok(fold_or(seq_or))
}

} // verus!
