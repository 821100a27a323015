use boolstack::dictionary::{Dictionary, STDENV};

fn find(d: &Dictionary, word: &str) -> String {
    d.try_find(word.to_string())
}

#[test]
fn standard_aliases() {
    let d = Dictionary::new_stdenv();
    let expected = [
        ("help", "?"),
        ("true", "t"),
        ("false", "f"),
        ("lf", "ff"),
        ("not", "ft"),
        ("id", "tf"),
        ("lt", "tt"),
        ("cont", "ffff"),
        ("nor", "ffft"),
        ("cnonimpl", "fftf"),
        ("pneg", "fftt"),
        ("nonimpl", "ftff"),
        ("qneg", "ftft"),
        ("xor", "fttf"),
        ("nand", "fttt"),
        ("and", "tfff"),
        ("xnor", "tfft"),
        ("q", "tftf"),
        ("impl", "tftt"),
        ("p", "ttff"),
        ("cimpl", "ttft"),
        ("or", "tttf"),
        ("taut", "tttt"),
        ("drop", "#"),
        ("dup", "'"),
        ("over", "'-"),
        ("2dup", "''"),
        ("2over", "''--"),
        ("swap", "-*"),
        ("2swap", "--**"),
        ("rot", "-**"),
    ];
    for (name, target) in expected {
        assert_eq!(d.get(&name.to_string()), Some(&target.to_string()), "{}", name);
        assert_eq!(find(&d, name), target);
    }
}

#[test]
fn the_standard_text_has_thirty_one_definitions() {
    let defining = STDENV
        .split("\n")
        .filter(|l| l.split_whitespace().count() == 2)
        .count();
    assert_eq!(defining, 31);
    assert!(STDENV.starts_with("\nhelp ?\n\ntrue t\n"));
    assert!(STDENV.ends_with("rot -**\n"));
}

#[test]
fn and_resolves_to_its_table() {
    let d = Dictionary::new_stdenv();
    assert_eq!(find(&d, "and"), "tfff");
    assert_eq!(find(&d, "not"), "ft");
}

#[test]
fn a_word_without_definition_resolves_to_itself() {
    let d = Dictionary::new_stdenv();
    assert_eq!(find(&d, "tfff"), "tfff");
    assert_eq!(find(&d, "foo"), "foo");
    assert_eq!(find(&d, ""), "");
    assert_eq!(d.get(&"foo".to_string()), None);
    assert!(d.hops(&"foo".to_string()).is_empty());
}

#[test]
fn an_empty_dictionary_resolves_nothing() {
    let d = Dictionary::new();
    assert_eq!(find(&d, "and"), "and");
    assert_eq!(d.get(&"and".to_string()), None);
}

#[test]
fn chains_are_followed_to_their_end() {
    let mut d = Dictionary::new();
    d.insert("a".to_string(), "b".to_string());
    d.insert("b".to_string(), "c".to_string());
    d.insert("c".to_string(), "tfff".to_string());
    assert_eq!(find(&d, "a"), "tfff");
    assert_eq!(find(&d, "b"), "tfff");
    assert_eq!(find(&d, "c"), "tfff");
    assert_eq!(
        d.hops(&"a".to_string()),
        vec![
            ("a".to_string(), "b".to_string()),
            ("b".to_string(), "c".to_string()),
            ("c".to_string(), "tfff".to_string()),
        ]
    );
}

#[test]
fn chains_defined_back_to_front_are_followed_too() {
    let mut d = Dictionary::new();
    d.insert("c".to_string(), "ft".to_string());
    d.insert("b".to_string(), "c".to_string());
    d.insert("a".to_string(), "b".to_string());
    assert_eq!(find(&d, "a"), "ft");
}

#[test]
fn a_later_definition_replaces_an_earlier_one() {
    let mut d = Dictionary::new();
    d.insert("x".to_string(), "t".to_string());
    d.insert("x".to_string(), "f".to_string());
    assert_eq!(d.get(&"x".to_string()), Some(&"f".to_string()));
    assert_eq!(find(&d, "x"), "f");
}

#[test]
fn a_circle_of_definitions_comes_to_a_stop() {
    let mut d = Dictionary::new();
    d.insert("a".to_string(), "b".to_string());
    d.insert("b".to_string(), "a".to_string());
    // two definitions, two hops: a -> b -> a
    assert_eq!(find(&d, "a"), "a");
    assert_eq!(find(&d, "b"), "b");
    assert_eq!(d.hops(&"a".to_string()).len(), 2);
}

#[test]
fn hops_of_a_standard_alias() {
    let d = Dictionary::new_stdenv();
    assert_eq!(
        d.hops(&"xor".to_string()),
        vec![("xor".to_string(), "fttf".to_string())]
    );
}

#[test]
fn parse_reads_lines_of_two_words() {
    let d = Dictionary::parse("one t\n\nthree words here\nlonely\n  two   f  \none ft");
    assert_eq!(d.get(&"one".to_string()), Some(&"ft".to_string()));
    assert_eq!(d.get(&"two".to_string()), Some(&"f".to_string()));
    assert_eq!(d.get(&"three".to_string()), None);
    assert_eq!(d.get(&"lonely".to_string()), None);
}

#[test]
fn what_the_standard_aliases_stand_for_is_no_alias() {
    let d = Dictionary::new_stdenv();
    for line in STDENV.split("\n") {
        let words: Vec<&str> = line.split_whitespace().collect();
        if words.len() == 2 {
            assert_eq!(d.get(&words[1].to_string()), None, "{}", words[1]);
            assert_eq!(d.hops(&words[0].to_string()).len(), 1);
        }
    }
    assert_eq!(d.get(&"?".to_string()), None);
    assert_eq!(d.get(&"".to_string()), None);
}

#[test]
fn a_replaced_definition_is_used_once() {
    let mut d = Dictionary::new();
    d.insert("x".to_string(), "y".to_string());
    d.insert("y".to_string(), "t".to_string());
    d.insert("x".to_string(), "f".to_string());
    assert_eq!(
        d.hops(&"x".to_string()),
        vec![("x".to_string(), "f".to_string())]
    );
    assert_eq!(find(&d, "y"), "t");
}

#[test]
fn a_word_that_stands_for_itself_comes_to_a_stop() {
    let mut d = Dictionary::new();
    d.insert("a".to_string(), "a".to_string());
    assert_eq!(find(&d, "a"), "a");
    assert_eq!(d.hops(&"a".to_string()).len(), 1);
}
