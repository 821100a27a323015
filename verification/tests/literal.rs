use boolstack::literal::{asbool, fmt_func, Func};

#[test]
fn truth_characters() {
    assert_eq!(asbool(&'t'), Some(true));
    assert_eq!(asbool(&'1'), Some(true));
    assert_eq!(asbool(&'f'), Some(false));
    assert_eq!(asbool(&'0'), Some(false));
    assert_eq!(asbool(&'x'), None);
    assert_eq!(asbool(&'T'), None);
    assert_eq!(asbool(&'-'), None);
}

#[test]
fn literal_of_one_character_takes_no_inputs() {
    let f = Func::from_str("t").unwrap();
    assert_eq!(f.inputs(), 0);
    assert_eq!(f.values(), &vec![true]);
}

#[test]
fn literal_of_four_characters_takes_two_inputs() {
    let f = Func::from_str("tfff").unwrap();
    assert_eq!(f.inputs(), 2);
    assert_eq!(f.values(), &vec![true, false, false, false]);
}

#[test]
fn digits_are_truth_values_too() {
    let f = Func::from_str("10").unwrap();
    assert_eq!(f.inputs(), 1);
    assert_eq!(f.values(), &vec![true, false]);
    assert_eq!(Func::from_str("1f0t"), Func::from_str("tfft"));
}

#[test]
fn literal_of_sixteen_characters_takes_four_inputs() {
    let f = Func::from_str("tttttttttttttttf").unwrap();
    assert_eq!(f.inputs(), 4);
    assert_eq!(f.values().len(), 16);
}

#[test]
fn lengths_that_are_no_power_of_two_are_refused() {
    assert!(Func::from_str("").is_none());
    assert!(Func::from_str("ttt").is_none());
    assert!(Func::from_str("ttttt").is_none());
    assert!(Func::from_str("tttttt").is_none());
    assert!(Func::from_str("tttttttttttt").is_none());
}

#[test]
fn other_characters_are_refused() {
    assert!(Func::from_str("tx").is_none());
    assert!(Func::from_str("-").is_none());
    assert!(Func::from_str("tf t").is_none());
    assert!(Func::from_str("é").is_none());
    assert!(Func::from_str("tfé").is_none());
}

#[test]
fn and_of_true_false_is_false() {
    let and = Func::from_str("tfff").unwrap();
    let mut stack = vec![true, false];
    assert_eq!(and.eval(&mut stack), Some(vec![false]));
    assert!(stack.is_empty());
}

#[test]
fn and_of_true_true_is_true() {
    let and = Func::from_str("tfff").unwrap();
    let mut stack = vec![true, true];
    assert_eq!(and.eval(&mut stack), Some(vec![true]));
    assert!(stack.is_empty());
}

#[test]
fn not_of_true_is_false() {
    let not = Func::from_str("ft").unwrap();
    let mut stack = vec![true];
    assert_eq!(not.eval(&mut stack), Some(vec![false]));
    let mut stack = vec![false];
    assert_eq!(not.eval(&mut stack), Some(vec![true]));
}

#[test]
fn the_oldest_value_is_the_first_input() {
    // "fftf" is true on the row (false, true) alone
    let f = Func::from_str("fftf").unwrap();
    let mut stack = vec![false, true];
    assert_eq!(f.eval(&mut stack), Some(vec![true]));
    let mut stack = vec![true, false];
    assert_eq!(f.eval(&mut stack), Some(vec![false]));
}

#[test]
fn eval_leaves_the_rest_of_the_stack() {
    let or = Func::from_str("tttf").unwrap();
    let mut stack = vec![true, false, false, false];
    assert_eq!(or.eval(&mut stack), Some(vec![false]));
    assert_eq!(stack, vec![true, false]);
}

#[test]
fn eval_on_a_short_stack_fails_and_changes_nothing() {
    let and = Func::from_str("tfff").unwrap();
    let mut stack = vec![true];
    assert_eq!(and.eval(&mut stack), None);
    assert_eq!(stack, vec![true]);
    let mut stack: Vec<bool> = vec![];
    assert_eq!(and.eval(&mut stack), None);
}

#[test]
fn a_constant_needs_no_stack() {
    let t = Func::from_str("t").unwrap();
    let mut stack: Vec<bool> = vec![];
    assert_eq!(t.eval(&mut stack), Some(vec![true]));
    let mut stack = vec![false];
    assert_eq!(t.eval(&mut stack), Some(vec![true]));
    assert_eq!(stack, vec![false]);
}

#[test]
fn eval_agrees_with_the_table_on_every_row() {
    let literal = "tfftfttftfftfttf";
    let f = Func::from_str(literal).unwrap();
    let rows = boolstack::rows::Values::genvalues(4);
    for (r, row) in rows.values.iter().enumerate() {
        let mut stack = row.clone();
        assert_eq!(f.eval(&mut stack), Some(vec![f.values()[r]]));
    }
}

#[test]
fn tables_are_printed_in_groups_of_four() {
    assert_eq!(fmt_func(&vec![]), "");
    assert_eq!(fmt_func(&vec![true]), "t");
    assert_eq!(fmt_func(&vec![false, true]), "ft");
    assert_eq!(fmt_func(&vec![true, false, false, false]), "tfff");
    assert_eq!(fmt_func(&vec![true, true, true, true, false]), "tttt.f");
    assert_eq!(
        fmt_func(&vec![true, false, false, false, false, true, true, true]),
        "tfff.fttt"
    );
    assert_eq!(fmt_func(&vec![true; 16]), "tttt.tttt.tttt.tttt");
    assert_eq!(fmt_func(&vec![false; 9]), "ffff.ffff.f");
}

#[test]
fn literals_come_back_from_their_tables() {
    for literal in ["t", "f", "tf", "ft", "tfff", "fttt", "tfftfttf", "tfffftttfttftfft"] {
        let f = Func::from_str(literal).unwrap();
        let printed = fmt_func(f.values());
        let bare: String = printed.chars().filter(|c| *c != '.').collect();
        assert_eq!(bare, literal);
    }
}

#[test]
fn digits_come_back_as_letters() {
    let f = Func::from_str("10").unwrap();
    assert_eq!(fmt_func(f.values()), "tf");
}
