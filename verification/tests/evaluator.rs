use boolstack::dictionary::{Dictionary, STDENV};
use boolstack::evaluator::{asks_help, eval, fmt_stack, Outcome};

fn run(line: &str) -> Option<Outcome> {
    eval(line, &Dictionary::new_stdenv())
}

fn printed(line: &str) -> String {
    run(line).unwrap().render()
}

#[test]
fn stacks_are_printed_with_blanks() {
    assert_eq!(fmt_stack(&vec![]), "");
    assert_eq!(fmt_stack(&vec![true]), "true");
    assert_eq!(fmt_stack(&vec![false]), "false");
    assert_eq!(fmt_stack(&vec![true, false]), "true false");
    assert_eq!(fmt_stack(&vec![false, false, true]), "false false true");
}

#[test]
fn help_lines() {
    assert!(asks_help("?"));
    assert!(asks_help("help"));
    assert!(!asks_help(""));
    assert!(!asks_help(" ?"));
    assert!(!asks_help("help "));
    assert!(!asks_help("hel"));
    assert!(!asks_help("halp"));
    assert!(!asks_help("!"));
}

#[test]
fn help_gives_the_standard_text() {
    assert_eq!(run("?"), Some(Outcome::Help));
    assert_eq!(run("help"), Some(Outcome::Help));
    assert_eq!(printed("help"), STDENV);
}

#[test]
fn help_among_other_words_is_no_operator() {
    assert_eq!(run("help true"), Some(Outcome::Invalid));
    assert_eq!(run(" help"), Some(Outcome::Invalid));
}

#[test]
fn and_applied_to_true_false() {
    assert_eq!(run("true false and"), Some(Outcome::Stack(vec![false])));
    assert_eq!(printed("true false and"), "false");
    assert_eq!(run("true true and"), Some(Outcome::Stack(vec![true])));
    assert_eq!(printed("true true and"), "true");
}

#[test]
fn not_applied_to_true() {
    assert_eq!(run("true not"), Some(Outcome::Stack(vec![false])));
    assert_eq!(printed("t ft"), "false");
}

#[test]
fn swap_and_dup_on_values() {
    assert_eq!(run("true false swap"), Some(Outcome::Stack(vec![false, true])));
    assert_eq!(printed("true false swap"), "false true");
    assert_eq!(run("true dup"), Some(Outcome::Stack(vec![true, true])));
    assert_eq!(printed("false dup"), "false false");
}

#[test]
fn and_not_is_nand() {
    assert_eq!(
        run("and not"),
        Some(Outcome::Table(vec![false, true, true, true]))
    );
    assert_eq!(printed("and not"), "fttt");
}

#[test]
fn tables_of_three_inputs_are_printed_in_two_groups() {
    assert_eq!(printed("and and"), "tfff.ffff");
    assert_eq!(printed("xor xor"), "tfft.fttf");
}

#[test]
fn tables_of_four_inputs_are_printed_in_four_groups() {
    assert_eq!(printed("or or or"), "tttt.tttt.tttt.tttf");
}

#[test]
fn an_undefined_word_is_invalid() {
    assert_eq!(run("foo"), Some(Outcome::Invalid));
    assert_eq!(printed("foo"), "?");
    assert_eq!(run("true foo and"), Some(Outcome::Invalid));
    assert_eq!(printed("and nope"), "?");
}

#[test]
fn three_outputs_are_reported() {
    assert_eq!(run("over"), Some(Outcome::WrongOutputs(3)));
    assert_eq!(printed("over"), "... (3)");
    assert_eq!(printed("'-"), "... (3)");
}

#[test]
fn other_output_counts_are_reported() {
    assert_eq!(run("drop"), Some(Outcome::WrongOutputs(0)));
    assert_eq!(printed("drop"), "... (0)");
    assert_eq!(printed("dup"), "... (2)");
    assert_eq!(printed("2over 2over 2over"), "... (10)");
}

#[test]
fn lines_without_inputs_print_their_whole_stack() {
    assert_eq!(printed("true false true"), "true false true");
    assert_eq!(printed("true false over"), "true false true");
    assert_eq!(printed("true drop"), "");
    assert_eq!(printed(""), "");
    assert_eq!(run(""), Some(Outcome::Stack(vec![])));
}

#[test]
fn a_line_with_too_many_inputs_has_no_outcome() {
    let line = vec!["and"; usize::BITS as usize - 1].join(" ");
    assert_eq!(run(&line), None);
    let line = vec!["and"; usize::BITS as usize - 1].join(" ") + " dup";
    assert_eq!(run(&line), Some(Outcome::WrongOutputs(2)));
}

#[test]
fn outcomes_render() {
    assert_eq!(Outcome::Invalid.render(), "?");
    assert_eq!(Outcome::Help.render(), STDENV);
    assert_eq!(Outcome::Stack(vec![true, false]).render(), "true false");
    assert_eq!(Outcome::WrongOutputs(12).render(), "... (12)");
    assert_eq!(Outcome::Table(vec![true, false, false, true, true]).render(), "tfft.t");
}
