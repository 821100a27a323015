use boolstack::dictionary::Dictionary;
use boolstack::expression::{Expr, Expression};

fn read(line: &str) -> Option<Expression> {
    Expression::eval_str(line, &Dictionary::new_stdenv())
}

#[test]
fn a_word_is_a_function_or_a_combinator() {
    assert!(matches!(Expr::from_str("tfff"), Some(Expr::F(_))));
    assert!(matches!(Expr::from_str("-*"), Some(Expr::C(_))));
    assert!(Expr::from_str("").is_none());
    assert!(Expr::from_str("t-").is_none());
    assert!(Expr::from_str("and").is_none());
    let e = Expr::from_str("'-").unwrap();
    assert_eq!(e.inputs(), 2);
    assert_eq!(e.outputs(), 3);
    let e = Expr::from_str("tfff").unwrap();
    assert_eq!(e.inputs(), 2);
    assert_eq!(e.outputs(), 1);
}

#[test]
fn an_unknown_word_spoils_the_line() {
    assert!(read("foo").is_none());
    assert!(read("true foo and").is_none());
    assert!(read("and not foo").is_none());
    assert!(read("ttt").is_none());
}

#[test]
fn the_empty_line_is_the_empty_expression() {
    let e = read("").unwrap();
    assert_eq!(e.count_io(), (0, 0));
    assert_eq!(e.eval_expr(vec![true]), Some(vec![true]));
    let e = read("   ").unwrap();
    assert_eq!(e.count_io(), (0, 0));
}

#[test]
fn stack_effects() {
    assert_eq!(read("and not").unwrap().count_io(), (2, 1));
    assert_eq!(read("true").unwrap().count_io(), (0, 1));
    assert_eq!(read("true not").unwrap().count_io(), (0, 1));
    assert_eq!(read("true false and").unwrap().count_io(), (0, 1));
    assert_eq!(read("true and").unwrap().count_io(), (1, 1));
    assert_eq!(read("not").unwrap().count_io(), (1, 1));
    assert_eq!(read("drop").unwrap().count_io(), (1, 0));
    assert_eq!(read("dup").unwrap().count_io(), (1, 2));
    assert_eq!(read("over").unwrap().count_io(), (2, 3));
    assert_eq!(read("dup and").unwrap().count_io(), (1, 1));
    assert_eq!(read("and and").unwrap().count_io(), (3, 1));
    assert_eq!(read("2dup and swap drop").unwrap().count_io(), (2, 2));
    assert_eq!(read("true true true drop drop").unwrap().count_io(), (0, 1));
    assert_eq!(read("true drop drop").unwrap().count_io(), (1, 0));
    assert_eq!(read("drop true").unwrap().count_io(), (1, 1));
    assert_eq!(read("2over").unwrap().count_io(), (4, 6));
}

#[test]
fn evaluation_threads_the_stack() {
    assert_eq!(read("true false and").unwrap().eval_expr(vec![]), Some(vec![false]));
    assert_eq!(read("true true and").unwrap().eval_expr(vec![]), Some(vec![true]));
    assert_eq!(read("true not").unwrap().eval_expr(vec![]), Some(vec![false]));
    assert_eq!(
        read("true false swap").unwrap().eval_expr(vec![]),
        Some(vec![false, true])
    );
    assert_eq!(read("false dup").unwrap().eval_expr(vec![]), Some(vec![false, false]));
    assert_eq!(
        read("and not").unwrap().eval_expr(vec![true, true]),
        Some(vec![false])
    );
    assert_eq!(
        read("and not").unwrap().eval_expr(vec![false, true, false]),
        Some(vec![false, true])
    );
    assert_eq!(
        read("true false true rot").unwrap().eval_expr(vec![]),
        Some(vec![false, true, true])
    );
}

#[test]
fn evaluation_fails_on_a_short_stack() {
    assert_eq!(read("and").unwrap().eval_expr(vec![]), None);
    assert_eq!(read("and").unwrap().eval_expr(vec![true]), None);
    assert_eq!(read("true and not swap").unwrap().eval_expr(vec![true]), None);
    assert_eq!(read("true drop drop").unwrap().eval_expr(vec![]), None);
}

#[test]
fn evaluation_succeeds_from_the_required_depth_on() {
    for line in ["and not", "dup and", "2dup and swap drop", "true drop drop", "rot xor or", ""] {
        let e = read(line).unwrap();
        let (depth, net) = e.count_io();
        for len in 0..depth + 3 {
            let out = e.eval_expr(vec![true; len]);
            assert_eq!(out.is_some(), len >= depth, "{:?} on {}", line, len);
            if len == depth {
                assert_eq!(out.unwrap().len(), net);
            }
        }
    }
}

#[test]
fn truth_tables() {
    assert_eq!(
        read("and not").unwrap().truth_table(),
        Some(vec![false, true, true, true])
    );
    assert_eq!(read("not").unwrap().truth_table(), Some(vec![false, true]));
    assert_eq!(read("dup and").unwrap().truth_table(), Some(vec![true, false]));
    assert_eq!(
        read("swap impl").unwrap().truth_table(),
        Some(vec![true, true, false, true])
    );
    assert_eq!(read("true").unwrap().truth_table(), Some(vec![true]));
    assert_eq!(
        read("and and").unwrap().truth_table(),
        Some(vec![true, false, false, false, false, false, false, false])
    );
    assert_eq!(read("over").unwrap().truth_table(), None);
    assert_eq!(read("drop").unwrap().truth_table(), None);
}

#[test]
fn a_table_of_too_many_rows_is_not_made() {
    let line = vec!["and"; usize::BITS as usize - 1].join(" ");
    let e = read(&line).unwrap();
    assert_eq!(e.count_io(), (usize::BITS as usize, 1));
    assert_eq!(e.truth_table(), None);
}
