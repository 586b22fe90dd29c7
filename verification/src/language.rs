//! The mathematical model of a pattern and of the strings it denotes.

use vstd::pervasive::trigger;
use vstd::prelude::*;

verus! {

/// A pattern as a mathematical value: the view of a syntax tree.
pub enum Regex {
    /// Exactly this character.
    Char(char),
    /// One or more repetitions.
    Plus(Box<Regex>),
    /// Zero or more repetitions.
    Star(Box<Regex>),
    /// Zero or one occurrence.
    Question(Box<Regex>),
    /// Either alternative.
    Or(Box<Regex>, Box<Regex>),
    /// Every part in turn, left to right.
    Concat(Seq<Regex>),
}

/// `r` denotes the characters of `input` from position `from` up to, not
/// including, position `to`.
pub open spec fn spans(r: Regex, input: Seq<char>, from: int, to: int) -> bool
    decreases r, 0nat, 0nat,
{
    match r {
        Regex::Char(c) => 0 <= from < input.len() && to == from + 1 && input[from] == c,
        Regex::Plus(inner) => exists|n: nat| #[trigger] trigger(n) && n >= 1 && repeat_spans(*inner, n, input, from, to),
        Regex::Star(inner) => exists|n: nat| #[trigger] trigger(n) && repeat_spans(*inner, n, input, from, to),
        Regex::Question(inner) => to == from || spans(*inner, input, from, to),
        Regex::Or(left, right) => spans(*left, input, from, to) || spans(*right, input, from, to),
        Regex::Concat(parts) => seq_spans(parts, 0, input, from, to),
    }
}

/// `n` consecutive matches of `r` cover `input` from `from` to `to`.
pub open spec fn repeat_spans(r: Regex, n: nat, input: Seq<char>, from: int, to: int) -> bool
    decreases r, 1nat, n,
{
    if n == 0 {
        to == from
    } else {
        exists|mid: int| #[trigger]
            trigger(mid) && spans(r, input, from, mid) && repeat_spans(
                r,
                (n - 1) as nat,
                input,
                mid,
                to,
            )
    }
}

/// The parts of `parts` from index `k` on, one after the other, cover `input`
/// from `from` to `to`.
pub open spec fn seq_spans(parts: Seq<Regex>, k: nat, input: Seq<char>, from: int, to: int) -> bool
    decreases parts, 1nat, parts.len() - k,
{
    if k >= parts.len() {
        to == from
    } else {
        exists|mid: int| #[trigger]
            trigger(mid) && spans(parts[k as int], input, from, mid) && seq_spans(
                parts,
                k + 1,
                input,
                mid,
                to,
            )
    }
}

/// A stretch that a pattern denotes does not run backwards, and where it is
/// not empty it lies in the input.
pub proof fn lemma_spans_bounds(r: Regex, input: Seq<char>, from: int, to: int)
    requires
        spans(r, input, from, to),
    ensures
        from <= to,
        from < to ==> 0 <= from && to <= input.len(),
    decreases r, 0nat, 0nat,
{
    match r {
        Regex::Char(_) => {},
        Regex::Plus(inner) => {
            let n = choose|n: nat| #[trigger]
                trigger(n) && n >= 1 && repeat_spans(*inner, n, input, from, to);
            lemma_repeat_bounds(*inner, n, input, from, to);
        },
        Regex::Star(inner) => {
            let n = choose|n: nat| #[trigger] trigger(n) && repeat_spans(*inner, n, input, from, to);
            lemma_repeat_bounds(*inner, n, input, from, to);
        },
        Regex::Question(inner) => {
            if to != from {
                lemma_spans_bounds(*inner, input, from, to);
            }
        },
        Regex::Or(left, right) => {
            if spans(*left, input, from, to) {
                lemma_spans_bounds(*left, input, from, to);
            } else {
                lemma_spans_bounds(*right, input, from, to);
            }
        },
        Regex::Concat(parts) => {
            lemma_seq_bounds(parts, 0, input, from, to);
        },
    }
}

/// `lemma_spans_bounds` for repetitions.
pub proof fn lemma_repeat_bounds(r: Regex, n: nat, input: Seq<char>, from: int, to: int)
    requires
        repeat_spans(r, n, input, from, to),
    ensures
        from <= to,
        from < to ==> 0 <= from && to <= input.len(),
    decreases r, 1nat, n,
{
    if n > 0 {
        let mid = choose|mid: int| #[trigger]
            trigger(mid) && spans(r, input, from, mid) && repeat_spans(
                r,
                (n - 1) as nat,
                input,
                mid,
                to,
            );
        lemma_spans_bounds(r, input, from, mid);
        lemma_repeat_bounds(r, (n - 1) as nat, input, mid, to);
    }
}

/// `lemma_spans_bounds` for the parts of a concatenation from part `k` on.
pub proof fn lemma_seq_bounds(parts: Seq<Regex>, k: nat, input: Seq<char>, from: int, to: int)
    requires
        seq_spans(parts, k, input, from, to),
    ensures
        from <= to,
        from < to ==> 0 <= from && to <= input.len(),
    decreases parts, 1nat, parts.len() - k,
{
    if k < parts.len() {
        let mid = choose|mid: int| #[trigger]
            trigger(mid) && spans(parts[k as int], input, from, mid) && seq_spans(
                parts,
                k + 1,
                input,
                mid,
                to,
            );
        lemma_spans_bounds(parts[k as int], input, from, mid);
        lemma_seq_bounds(parts, k + 1, input, mid, to);
    }
}

/// The characters of `input` from `from` to `to` stand in `other` too,
/// `shift` places further on.
pub open spec fn same_stretch(input: Seq<char>, from: int, to: int, other: Seq<char>, shift: int) -> bool {
    &&& from < to ==> 0 <= from + shift && to + shift <= other.len()
    &&& forall|i: int| from <= i < to ==> other[i + shift] == #[trigger] input[i]
}

/// The same holds of each stretch of the stretch.
pub proof fn lemma_same_stretch_part(
    input: Seq<char>,
    from: int,
    to: int,
    other: Seq<char>,
    shift: int,
    mid: int,
)
    requires
        same_stretch(input, from, to, other, shift),
        from <= mid <= to,
    ensures
        same_stretch(input, from, mid, other, shift),
        same_stretch(input, mid, to, other, shift),
{
}

/// What a pattern denotes depends on the characters of the stretch alone:
/// with a stretch it denotes the same characters at another place, or in
/// another input.
pub proof fn lemma_spans_moved(
    r: Regex,
    input: Seq<char>,
    from: int,
    to: int,
    other: Seq<char>,
    shift: int,
)
    requires
        spans(r, input, from, to),
        same_stretch(input, from, to, other, shift),
    ensures
        spans(r, other, from + shift, to + shift),
    decreases r, 0nat, 0nat,
{
    match r {
        Regex::Char(c) => {
            assert(input[from] == c);
        },
        Regex::Plus(inner) => {
            let n = choose|n: nat| #[trigger]
                trigger(n) && n >= 1 && repeat_spans(*inner, n, input, from, to);
            lemma_repeat_moved(*inner, n, input, from, to, other, shift);
            assert(trigger(n));
        },
        Regex::Star(inner) => {
            let n = choose|n: nat| #[trigger] trigger(n) && repeat_spans(*inner, n, input, from, to);
            lemma_repeat_moved(*inner, n, input, from, to, other, shift);
            assert(trigger(n));
        },
        Regex::Question(inner) => {
            if to != from {
                lemma_spans_moved(*inner, input, from, to, other, shift);
            }
        },
        Regex::Or(left, right) => {
            if spans(*left, input, from, to) {
                lemma_spans_moved(*left, input, from, to, other, shift);
            } else {
                lemma_spans_moved(*right, input, from, to, other, shift);
            }
        },
        Regex::Concat(parts) => {
            lemma_seq_moved(parts, 0, input, from, to, other, shift);
        },
    }
}

/// `lemma_spans_moved` for repetitions.
pub proof fn lemma_repeat_moved(
    r: Regex,
    n: nat,
    input: Seq<char>,
    from: int,
    to: int,
    other: Seq<char>,
    shift: int,
)
    requires
        repeat_spans(r, n, input, from, to),
        same_stretch(input, from, to, other, shift),
    ensures
        repeat_spans(r, n, other, from + shift, to + shift),
    decreases r, 1nat, n,
{
    if n > 0 {
        let mid = choose|mid: int| #[trigger]
            trigger(mid) && spans(r, input, from, mid) && repeat_spans(
                r,
                (n - 1) as nat,
                input,
                mid,
                to,
            );
        lemma_spans_bounds(r, input, from, mid);
        lemma_repeat_bounds(r, (n - 1) as nat, input, mid, to);
        lemma_same_stretch_part(input, from, to, other, shift, mid);
        lemma_spans_moved(r, input, from, mid, other, shift);
        lemma_repeat_moved(r, (n - 1) as nat, input, mid, to, other, shift);
        assert(trigger(mid + shift));
    }
}

/// `lemma_spans_moved` for the parts of a concatenation from part `k` on.
pub proof fn lemma_seq_moved(
    parts: Seq<Regex>,
    k: nat,
    input: Seq<char>,
    from: int,
    to: int,
    other: Seq<char>,
    shift: int,
)
    requires
        seq_spans(parts, k, input, from, to),
        same_stretch(input, from, to, other, shift),
    ensures
        seq_spans(parts, k, other, from + shift, to + shift),
    decreases parts, 1nat, parts.len() - k,
{
    if k < parts.len() {
        let mid = choose|mid: int| #[trigger]
            trigger(mid) && spans(parts[k as int], input, from, mid) && seq_spans(
                parts,
                k + 1,
                input,
                mid,
                to,
            );
        lemma_spans_bounds(parts[k as int], input, from, mid);
        lemma_seq_bounds(parts, k + 1, input, mid, to);
        lemma_same_stretch_part(input, from, to, other, shift, mid);
        lemma_spans_moved(parts[k as int], input, from, mid, other, shift);
        lemma_seq_moved(parts, k + 1, input, mid, to, other, shift);
        assert(trigger(mid + shift));
    }
}

} // verus!
