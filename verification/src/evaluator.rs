//! The evaluation of one line, and how its outcome is written down.

use crate::dictionary::{resolve, Aliases, Dictionary, STDENV};
use crate::expression::{
    effect,
    lemma_run_needs_depth,
    lemma_unknown_word,
    parse_op,
    program,
    run,
    table_of,
    Expression,
};
use crate::literal::{fmt_func, grouped};
use crate::text::{chars_of, decimal, decimal_of, words};
use vstd::prelude::*;
use vstd::string::StringExecFns;

verus! {

/// What the evaluation of a line comes to, as a mathematical value.
pub enum Verdict {
    /// The line asks for the list of the standard aliases.
    Help,
    /// A word of the line spells no operator.
    Invalid,
    /// The line needs no inputs; this is the stack that it leaves.
    Stack(Seq<bool>),
    /// The line needs inputs and leaves this number of values, which is not
    /// one.
    WrongOutputs(nat),
    /// The line needs inputs and leaves one value; this is its truth table.
    Table(Seq<bool>),
}

/// What the evaluation of a line comes to.
#[derive(Debug, PartialEq)]
pub enum Outcome {
    /// The line asks for the list of the standard aliases.
    Help,
    /// A word of the line spells no operator.
    Invalid,
    /// The line needs no inputs; this is the stack that it leaves.
    Stack(Vec<bool>),
    /// The line needs inputs and leaves this number of values, which is not
    /// one.
    WrongOutputs(usize),
    /// The line needs inputs and leaves one value; this is its truth table.
    Table(Vec<bool>),
}

impl View for Outcome {
    type V = Verdict;

    open spec fn view(&self) -> Verdict {
        match self {
            Outcome::Help => Verdict::Help,
            Outcome::Invalid => Verdict::Invalid,
            Outcome::Stack(stack) => Verdict::Stack(stack@),
            Outcome::WrongOutputs(n) => Verdict::WrongOutputs(*n as nat),
            Outcome::Table(table) => Verdict::Table(table@),
        }
    }
}

/// Whether a line asks for the list of the standard aliases.
pub open spec fn is_help(line: Seq<char>) -> bool {
    line == seq!['?'] || line == seq!['h', 'e', 'l', 'p']
}

/// What the evaluation of a line comes to. A line without free inputs is
/// run once on the empty stack. A line with free inputs that leaves one
/// value is run on every row of the canonical table. There is no verdict
/// where that table has more rows than a machine word can count.
pub open spec fn verdict(m: Aliases, line: Seq<char>) -> Option<Verdict> {
    if is_help(line) {
        Some(Verdict::Help)
    } else {
        match program(m, line) {
            None => Some(Verdict::Invalid),
            Some(ops) => {
                let e = effect(ops);
                if e.max_depth == 0 {
                    Some(Verdict::Stack(run(ops, Seq::empty()).unwrap()))
                } else if e.net != 1 {
                    Some(Verdict::WrongOutputs(e.net as nat))
                } else if e.max_depth >= usize::BITS {
                    None
                } else {
                    Some(Verdict::Table(table_of(ops, e.max_depth as nat)))
                }
            },
        }
    }
}

/// A line with a word that spells no operator is invalid, whatever else it
/// holds: nothing of it is run.
pub proof fn lemma_unknown_word_is_invalid(m: Aliases, line: Seq<char>, k: int)
    requires
        !is_help(line),
        0 <= k < words(line).len(),
        parse_op(resolve(m, words(line)[k])) is None,
    ensures
        verdict(m, line) == Some(Verdict::Invalid),
{
    lemma_unknown_word(m, line, k);
}

/// A line with free inputs that leaves another number of values than one
/// is reported with that number, and no table is made of it.
pub proof fn lemma_wrong_outputs_are_reported(m: Aliases, line: Seq<char>)
    requires
        !is_help(line),
        program(m, line) is Some,
        effect(program(m, line).unwrap()).max_depth > 0,
        effect(program(m, line).unwrap()).net != 1,
    ensures
        verdict(m, line) == Some(
            Verdict::WrongOutputs(effect(program(m, line).unwrap()).net as nat),
        ),
{
}

/// A line without free inputs always has a stack to show: it runs on the
/// empty stack and leaves `net` values.
pub proof fn lemma_closed_lines_run(m: Aliases, line: Seq<char>)
    requires
        !is_help(line),
        program(m, line) is Some,
        effect(program(m, line).unwrap()).max_depth == 0,
    ensures
        run(program(m, line).unwrap(), Seq::empty()) matches Some(stack) && verdict(m, line)
            == Some(Verdict::Stack(stack)) && stack.len() == effect(
            program(m, line).unwrap(),
        ).net,
{
    lemma_run_needs_depth(program(m, line).unwrap(), Seq::empty());
}

/// The word that stands for a truth value in a printed stack.
pub open spec fn truth_word(b: bool) -> Seq<char> {
    if b {
        seq!['t', 'r', 'u', 'e']
    } else {
        seq!['f', 'a', 'l', 's', 'e']
    }
}

/// A stack as it is printed: the words for its values, bottom first, with a
/// blank between one word and the next.
pub open spec fn spaced(stack: Seq<bool>) -> Seq<char>
    decreases stack.len(),
{
    if stack.len() == 0 {
        Seq::empty()
    } else if stack.len() == 1 {
        truth_word(stack.last())
    } else {
        spaced(stack.drop_last()).push(' ') + truth_word(stack.last())
    }
}

/// A verdict as it is printed.
pub open spec fn rendering(v: Verdict) -> Seq<char> {
    match v {
        Verdict::Help => STDENV@,
        Verdict::Invalid => seq!['?'],
        Verdict::Stack(stack) => spaced(stack),
        Verdict::WrongOutputs(n) => seq!['.', '.', '.', ' ', '('] + decimal_of(n) + seq![')'],
        Verdict::Table(table) => grouped(table),
    }
}

/// Prints a stack: `true` and `false`, bottom first, with blanks between.
pub fn fmt_stack(stack: &Vec<bool>) -> (text: String)
    ensures
        text@ == spaced(stack@),
{
    let mut st = String::new();
    let mut k: usize = 0;
    while k < stack.len()
        invariant
            k <= stack@.len(),
            st@ == spaced(stack@.take(k as int)),
        decreases stack@.len() - k,
    {
        let ghost before = st@;
        assert(stack@.take(k + 1).drop_last() =~= stack@.take(k as int));
        if k > 0 {
            st.push(' ');
        }
        if stack[k] {
            st.push('t');
            st.push('r');
            st.push('u');
            st.push('e');
        } else {
            st.push('f');
            st.push('a');
            st.push('l');
            st.push('s');
            st.push('e');
        }
        k = k + 1;
        assert(st@ =~= spaced(stack@.take(k as int)));
    }
    assert(stack@.take(k as int) =~= stack@);
    st
}

/// Whether a line asks for the list of the standard aliases.
pub fn asks_help(line: &str) -> (b: bool)
    ensures
        b == is_help(line@),
{
    let chars = chars_of(line);
    if chars.len() == 1 {
        let b = chars[0] == '?';
        assert(b == (chars@ =~= seq!['?']));
        b
    } else if chars.len() == 4 {
        let b = chars[0] == 'h' && chars[1] == 'e' && chars[2] == 'l' && chars[3] == 'p';
        assert(b == (chars@ =~= seq!['h', 'e', 'l', 'p']));
        b
    } else {
        false
    }
}

/// Evaluates one line against a dictionary.
pub fn eval(line: &str, dictionary: &Dictionary) -> (outcome: Option<Outcome>)
    ensures
        outcome is Some <==> verdict(dictionary@, line@) is Some,
        outcome matches Some(o) ==> Some(o@) == verdict(dictionary@, line@),
{
    if asks_help(line) {
        return Some(Outcome::Help);
    }
    match Expression::eval_str(line, dictionary) {
        Some(expr) => {
            let (input, o) = expr.count_io();
            if input == 0 {
                let empty: Vec<bool> = Vec::new();
                match expr.eval_expr(empty) {
                    Some(stack) => Some(Outcome::Stack(stack)),
                    None => vstd::pervasive::unreached(),
                }
            } else if o != 1 {
                Some(Outcome::WrongOutputs(o))
            } else {
                match expr.truth_table() {
                    Some(table) => Some(Outcome::Table(table)),
                    None => None,
                }
            }
        },
        None => Some(Outcome::Invalid),
    }
}

impl Outcome {
    /// The text that reports the outcome.
    pub fn render(&self) -> (text: String)
        ensures
            text@ == rendering(self@),
    {
        match self {
            Outcome::Help => STDENV.to_owned(),
            Outcome::Invalid => {
                let mut text = String::new();
                text.push('?');
                assert(text@ =~= seq!['?']);
                text
            },
            Outcome::Stack(stack) => fmt_stack(stack),
            Outcome::WrongOutputs(n) => {
                let mut text = String::new();
                text.push('.');
                text.push('.');
                text.push('.');
                text.push(' ');
                text.push('(');
                assert(text@ =~= seq!['.', '.', '.', ' ', '(']);
                let number = decimal(*n);
                text.append(number.as_str());
                text.push(')');
                assert(text@ =~= rendering(self@));
                text
            },
            Outcome::Table(table) => fmt_func(table),
        }
    }
}

} // verus!
