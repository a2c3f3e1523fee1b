use reggy::{Error, Pattern};

#[test]
fn findall_can_be_repeated() {
    let mut p = Pattern::new("dogs?").unwrap();
    assert_eq!(p.findall("cat dog dogs cats"), vec![(4, 7), (8, 12)]);
    assert_eq!(p.findall("cat dog dogs cats"), vec![(4, 7), (8, 12)]);
    assert_eq!(p.findall(""), vec![]);
    assert_eq!(p.findall("dog"), vec![(0, 3)]);
}

#[test]
fn findall_str_gives_the_text() {
    let mut p = Pattern::new("th(é|e)|#+ (!Dogs?)").unwrap();
    assert_eq!(
        p.findall_str("café THÉ 𝄞 12 Dogs, 3 dogs, the"),
        vec!["THÉ", "12 Dogs", "the"]
    );
    assert_eq!(
        p.findall("café THÉ 𝄞 12 Dogs, 3 dogs, the"),
        vec![(6, 10), (16, 23), (33, 36)]
    );
}

#[test]
fn new_gives_the_parse_error() {
    assert_eq!(Pattern::new("(a").err(), Some(Error::ParseError));
    assert_eq!(Pattern::new("a\\").err(), Some(Error::DanglingEscape));
    assert_eq!(Pattern::new(r"\q").err(), Some(Error::UnnecessaryEscape));
}

#[test]
fn a_pattern_can_be_cloned() {
    let mut p = Pattern::new("a b").unwrap();
    let mut q = p.clone();
    assert_eq!(p.findall("a b"), vec![(0, 3)]);
    assert_eq!(q.findall("x a\tb"), vec![(2, 5)]);
}

#[test]
fn unbounded_repetitions_match() {
    let mut p = Pattern::new("a+b").unwrap();
    assert_eq!(p.findall("aaab ab b"), vec![(0, 4), (5, 7)]);
    let mut q = Pattern::new("(ha )*ha").unwrap();
    assert_eq!(q.findall("ha ha ha!"), vec![(0, 8)]);
}

#[test]
fn a_count_is_exact() {
    let mut p = Pattern::new("(ha ){2}ho").unwrap();
    assert_eq!(p.findall("ha ho, ha ha ho, ha ha ha ho"), vec![(7, 15), (20, 28)]);
    let mut q = Pattern::new("x{3}").unwrap();
    assert_eq!(q.findall("xx xxx xxxx"), vec![(3, 6)]);
}

#[test]
fn optional_whitespace() {
    let mut p = Pattern::new("a ?b").unwrap();
    assert_eq!(p.findall("ab a b a  b"), vec![(0, 2), (3, 6), (7, 11)]);
}
