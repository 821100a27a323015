use boolstack::combinator::{tag, StackC, SC};

#[test]
fn tag_characters() {
    assert_eq!(tag('-'), Some(SC::Take));
    assert_eq!(tag('\''), Some(SC::Over));
    assert_eq!(tag('*'), Some(SC::Swap));
    assert_eq!(tag('#'), Some(SC::Drop));
    assert_eq!(tag('t'), None);
    assert_eq!(tag(' '), None);
}

#[test]
fn combinator_literals() {
    let c = StackC::from_str("-'*#").unwrap();
    assert_eq!(c.inputs(), 4);
    assert_eq!(c.outputs(), 4);
    assert_eq!(c.values(), &vec![SC::Take, SC::Over, SC::Swap, SC::Drop]);
    let c = StackC::from_str("''--").unwrap();
    assert_eq!(c.inputs(), 4);
    assert_eq!(c.outputs(), 6);
    let c = StackC::from_str("#").unwrap();
    assert_eq!(c.inputs(), 1);
    assert_eq!(c.outputs(), 0);
}

#[test]
fn other_words_are_no_combinators() {
    assert!(StackC::from_str("").is_none());
    assert!(StackC::from_str("-t").is_none());
    assert!(StackC::from_str("tfff").is_none());
    assert!(StackC::from_str("- *").is_none());
    assert!(StackC::from_str("-é").is_none());
}

#[test]
fn swap_exchanges_the_top_two() {
    let swap = StackC::from_str("-*").unwrap();
    for a in [false, true] {
        for b in [false, true] {
            let mut stack = vec![a, b];
            assert_eq!(swap.eval(&mut stack), Some(vec![b, a]));
            assert!(stack.is_empty());
        }
    }
}

#[test]
fn dup_doubles_the_top() {
    let dup = StackC::from_str("'").unwrap();
    for a in [false, true] {
        let mut stack = vec![a];
        assert_eq!(dup.eval(&mut stack), Some(vec![a, a]));
    }
}

#[test]
fn drop_takes_the_top_away() {
    let drop = StackC::from_str("#").unwrap();
    let mut stack = vec![true, false];
    assert_eq!(drop.eval(&mut stack), Some(vec![]));
    assert_eq!(stack, vec![true]);
}

#[test]
fn over_copies_the_second_to_the_top() {
    let over = StackC::from_str("'-").unwrap();
    let mut stack = vec![true, false];
    assert_eq!(over.eval(&mut stack), Some(vec![true, false, true]));
}

#[test]
fn rot_brings_the_third_to_the_top() {
    let rot = StackC::from_str("-**").unwrap();
    let mut stack = vec![true, false, false];
    assert_eq!(rot.eval(&mut stack), Some(vec![false, false, true]));
}

#[test]
fn two_swap_exchanges_two_pairs() {
    let c = StackC::from_str("--**").unwrap();
    let mut stack = vec![true, true, false, true];
    assert_eq!(c.eval(&mut stack), Some(vec![false, true, true, true]));
}

#[test]
fn two_over_copies_the_second_pair() {
    let c = StackC::from_str("''--").unwrap();
    let mut stack = vec![true, false, false, false];
    assert_eq!(
        c.eval(&mut stack),
        Some(vec![true, false, false, false, true, false])
    );
}

#[test]
fn swapped_values_come_first_then_kept_then_copies() {
    let c = StackC::from_str("'*-#*'").unwrap();
    let mut stack = vec![true, false, true, true, false, false];
    // swapped: [false, false]; kept: [true, true, false]; copies: [true, false]
    assert_eq!(
        c.eval(&mut stack),
        Some(vec![false, false, true, true, false, true, false])
    );
    assert_eq!(c.outputs(), 7);
}

#[test]
fn combinator_on_a_short_stack_fails_and_changes_nothing() {
    let swap = StackC::from_str("-*").unwrap();
    let mut stack = vec![true];
    assert_eq!(swap.eval(&mut stack), None);
    assert_eq!(stack, vec![true]);
}

#[test]
fn combinator_leaves_the_rest_of_the_stack() {
    let swap = StackC::from_str("-*").unwrap();
    let mut stack = vec![false, false, true, false];
    assert_eq!(swap.eval(&mut stack), Some(vec![false, true]));
    assert_eq!(stack, vec![false, false]);
}
