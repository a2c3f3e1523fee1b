use reggy::search::word_is_whitespace;
use reggy::Error::{DanglingEscape, ParseError, UnnecessaryEscape};
use reggy::{Ast, Match, Search, SearchStreamError};

#[test]
fn whitespace() {
    let mut s = Search::compile(&["a b"]).unwrap();
    let haystacks = ["ab    a ", " \t", "b", "ab"];

    assert_eq!(s.next(haystacks[0]), vec![]);
    assert_eq!(s.next(haystacks[1]), vec![]);
    assert_eq!(s.next(haystacks[2]), vec![Match::new(0, (6, 11))]);

    assert_eq!(s.next(haystacks[3]), vec![]);
    assert_eq!(s.finish(), vec![]);
}

#[test]
fn definitely_complete() {
    let mut s = Search::compile(&["abb?"]).unwrap();

    assert_eq!(s.next("ab"), vec![]);
    assert_eq!(s.finish(), vec![Match::new(0, (0, 2))]);

    s.reset();

    assert_eq!(s.next("abb"), vec![Match::new(0, (0, 3))]);
    assert_eq!(s.finish(), vec![]);
}

fn collect(s: &mut Search, chunks: &[&str]) -> Vec<Match> {
    s.reset();
    let mut found = vec![];
    for chunk in chunks {
        found.extend(s.next(chunk));
    }
    found.extend(s.finish());
    found
}

#[test]
fn several_patterns_at_once() {
    let mut s = Search::compile(&["cat", "dog", "cat dog"]).unwrap();
    assert_eq!(
        collect(&mut s, &["cat dog catdog dog"]),
        vec![
            Match::new(0, (0, 3)),
            Match::new(2, (0, 7)),
            Match::new(1, (4, 7)),
            Match::new(1, (15, 18)),
        ]
    );
}

#[test]
fn no_patterns_no_matches() {
    let none: [&str; 0] = [];
    let mut s = Search::compile(&none).unwrap();
    assert_eq!(collect(&mut s, &["cat dog"]), vec![]);
}

#[test]
fn compile_gives_the_first_error() {
    assert_eq!(
        Search::compile(&["a", r"b\x", "c\\"]).err(),
        Some(UnnecessaryEscape)
    );
    assert_eq!(
        Search::compile(&["a\\", "(b", r"c\x"]).err(),
        Some(DanglingEscape)
    );
    assert_eq!(Search::compile(&["a", "(b"]).err(), Some(ParseError));
}

#[test]
fn new_refuses_what_cannot_be_compiled() {
    let backwards = Ast::Quantifier(Box::new(Ast::Char('a')), 3, 2);
    assert_eq!(
        Search::new(&[Ast::Char('a'), backwards]).err(),
        Some(ParseError)
    );
    assert!(Search::new(&[Ast::Char('a'), Ast::Digit]).is_ok());
}

#[test]
fn matching_folds_case_unless_marked() {
    let mut s = Search::compile(&["dog", "(!Dog)"]).unwrap();
    assert_eq!(
        collect(&mut s, &["DOG Dog"]),
        vec![
            Match::new(0, (0, 3)),
            Match::new(0, (4, 7)),
            Match::new(1, (4, 7)),
        ]
    );
}

#[test]
fn matches_are_bounded_by_words() {
    let mut s = Search::compile(&["cat"]).unwrap();
    assert_eq!(
        collect(&mut s, &["cat cats concat cat."]),
        vec![Match::new(0, (0, 3)), Match::new(0, (16, 19))]
    );
}

#[test]
fn whitespace_in_the_haystack_is_folded() {
    let mut s = Search::compile(&["a b"]).unwrap();
    assert_eq!(collect(&mut s, &["a b"]), vec![Match::new(0, (0, 3))]);
    assert_eq!(collect(&mut s, &["a\tb"]), vec![Match::new(0, (0, 3))]);
    assert_eq!(collect(&mut s, &["a\nb"]), vec![Match::new(0, (0, 3))]);
    assert_eq!(collect(&mut s, &["a  b"]), vec![Match::new(0, (0, 4))]);
    assert_eq!(collect(&mut s, &["a \tb"]), vec![Match::new(0, (0, 4))]);
    assert_eq!(collect(&mut s, &["a\n\nb"]), vec![Match::new(0, (0, 4))]);
    assert_eq!(
        collect(&mut s, &["x a \t\n b"]),
        vec![Match::new(0, (2, 8))]
    );
}

#[test]
fn the_longest_match_from_a_start_wins() {
    let mut s = Search::compile(&["a b|a", "a( b( c)?)?"]).unwrap();
    assert_eq!(
        collect(&mut s, &["a b c"]),
        vec![Match::new(0, (0, 3)), Match::new(1, (0, 5))]
    );
    assert_eq!(
        collect(&mut s, &["a b"]),
        vec![Match::new(0, (0, 3)), Match::new(1, (0, 3))]
    );
}

#[test]
fn a_split_before_whitespace_changes_nothing() {
    let mut s = Search::compile(&["$#?#?#.##", "(John|Jane) Doe"]).unwrap();
    let whole = collect(
        &mut s,
        &["Jane Doe paid John Doe $45.66 instead of $499.00"],
    );
    let split = collect(
        &mut s,
        &["Jane Doe paid John", " Doe $45.66 instead of $499.00"],
    );
    let more = collect(
        &mut s,
        &[
            "Jane",
            " Doe paid",
            " John Doe $45.66",
            " instead of",
            " $499.00",
        ],
    );
    assert_eq!(
        whole,
        vec![
            Match::new(1, (0, 8)),
            Match::new(1, (14, 22)),
            Match::new(0, (23, 29)),
            Match::new(0, (41, 48)),
        ]
    );
    assert_eq!(split, whole);
    assert_eq!(more, whole);
}

#[test]
fn an_empty_chunk_changes_nothing() {
    let mut s = Search::compile(&["a b"]).unwrap();
    assert_eq!(
        collect(&mut s, &["", "x a", "", " b", ""]),
        vec![Match::new(0, (2, 5))]
    );
}

#[test]
fn reset_starts_over() {
    let mut s = Search::compile(&["abb?", "b c"]).unwrap();
    let fresh = collect(&mut s, &["ab b c"]);
    assert_eq!(s.next("xx ab"), vec![]);
    s.reset();
    assert_eq!(s.peek_finish(), vec![]);
    assert_eq!(collect(&mut s, &["ab b c"]), fresh);
    assert_eq!(
        fresh,
        vec![Match::new(0, (0, 2)), Match::new(1, (3, 6))]
    );
}

#[test]
fn peek_finish_leaves_the_state() {
    let mut s = Search::compile(&["abb?"]).unwrap();
    assert_eq!(s.next("x ab"), vec![]);
    assert_eq!(s.peek_finish(), vec![Match::new(0, (2, 4))]);
    assert_eq!(s.peek_finish(), vec![Match::new(0, (2, 4))]);
    assert_eq!(s.finish(), vec![Match::new(0, (2, 4))]);
    assert_eq!(s.peek_finish(), vec![]);
    assert_eq!(s.finish(), vec![]);
}

#[test]
fn pending_matches_are_merged_by_pattern() {
    let mut s = Search::compile(&["a( a( a)?)?"]).unwrap();
    assert_eq!(s.next("a a"), vec![]);
    assert_eq!(s.finish(), vec![Match::new(0, (0, 3))]);
}

#[test]
fn spans_count_bytes() {
    let mut s = Search::compile(&["dog", "thé"]).unwrap();
    assert_eq!(
        collect(&mut s, &["café thé 𝄞 dog"]),
        vec![Match::new(1, (6, 10)), Match::new(0, (16, 19))]
    );
}

#[test]
fn raw_bytes_one_by_one() {
    let mut s = Search::compile(&["thé", "dog"]).unwrap();
    let text = "thé dog".as_bytes();
    let mut found = vec![];
    for chunk in text.chunks(1) {
        assert!(s.fits(chunk.len()));
        found.extend(s.next_bytes(chunk).unwrap());
    }
    found.extend(s.finish());
    assert_eq!(found, vec![Match::new(0, (0, 4)), Match::new(1, (5, 8))]);
}

#[test]
fn raw_bytes_as_one_chunk() {
    let mut s = Search::compile(&["thé", "dog"]).unwrap();
    let mut found = s.next_bytes("café thé 𝄞 dog".as_bytes()).unwrap();
    found.extend(s.finish());
    assert_eq!(
        found,
        vec![Match::new(0, (6, 10)), Match::new(1, (16, 19))]
    );
}

#[test]
fn raw_bytes_hold_back_an_incomplete_character() {
    let mut s = Search::compile(&["thé"]).unwrap();
    assert_eq!(s.next_bytes(&[b'x', b' ', b't', b'h', 0xc3]).unwrap(), vec![]);
    assert_eq!(
        s.next_bytes(&[0xa9, b' ']).unwrap(),
        vec![Match::new(0, (2, 6))]
    );
    assert_eq!(s.next_bytes(&[b' ', 0xf0, 0x9d]).unwrap(), vec![]);
    assert_eq!(s.next_bytes(&[0x84]).unwrap(), vec![]);
    assert_eq!(s.next_bytes(&[0x9e, b' ', b't', b'h', 0xc3, 0xa9]).unwrap(), vec![
        Match::new(0, (13, 17))
    ]);
    assert_eq!(s.finish(), vec![]);
}

#[test]
fn raw_bytes_that_are_no_text() {
    let mut s = Search::compile(&["ab"]).unwrap();
    assert_eq!(s.next_bytes(b"x ").unwrap(), vec![]);
    assert!(matches!(
        s.next_bytes(&[b'a', 0xff, b'b']),
        Err(SearchStreamError::Utf8Error)
    ));
    assert!(matches!(
        s.next_bytes(&[0xc3, 0x28]),
        Err(SearchStreamError::Utf8Error)
    ));
    assert!(matches!(
        s.next_bytes(&[0x80]),
        Err(SearchStreamError::Utf8Error)
    ));
    assert_eq!(
        s.next_bytes(b" ab ").unwrap(),
        vec![Match::new(0, (3, 5))]
    );
}

#[test]
fn a_cut_on_a_word_boundary_changes_nothing() {
    let mut s = Search::compile(&["cd", "dog"]).unwrap();
    assert_eq!(collect(&mut s, &["ab cd"]), vec![Match::new(0, (3, 5))]);
    assert_eq!(collect(&mut s, &["ab", " cd"]), vec![Match::new(0, (3, 5))]);
    assert_eq!(collect(&mut s, &["ab ", "cd"]), vec![Match::new(0, (3, 5))]);
    assert_eq!(collect(&mut s, &["ab c", "d"]), vec![Match::new(0, (3, 5))]);
    assert_eq!(collect(&mut s, &["cat ", "dog"]), vec![Match::new(1, (4, 7))]);
    assert_eq!(collect(&mut s, &["cat dog"]), vec![Match::new(1, (4, 7))]);
    assert_eq!(
        collect(&mut s, &["cat", " ", "dog", " ", "cd"]),
        vec![Match::new(1, (4, 7)), Match::new(0, (8, 10))]
    );
}

#[test]
fn a_cut_within_a_word_starts_no_word() {
    let mut s = Search::compile(&["g", "dog"]).unwrap();
    assert_eq!(collect(&mut s, &["do", "g"]), vec![Match::new(1, (0, 3))]);
    assert_eq!(collect(&mut s, &["dog"]), vec![Match::new(1, (0, 3))]);
    assert_eq!(collect(&mut s, &["a  ", " g"]), vec![Match::new(0, (4, 5))]);
}

#[test]
fn a_match_that_is_complete_is_reported_at_once() {
    let mut s = Search::compile(&["ab"]).unwrap();
    assert_eq!(s.next("ab"), vec![Match::new(0, (0, 2))]);
    assert_eq!(s.next("c"), vec![]);
    assert_eq!(s.finish(), vec![]);
    assert_eq!(collect(&mut s, &["abc"]), vec![]);
}

#[test]
fn overlapping_matches_of_a_pattern_are_merged() {
    let mut s = Search::compile(&["a b|b|c c c c c"]).unwrap();
    assert_eq!(collect(&mut s, &["a b "]), vec![Match::new(0, (0, 3))]);
    assert_eq!(collect(&mut s, &["a b x"]), vec![Match::new(0, (0, 3))]);
}

#[test]
fn reset_forgets_held_bytes() {
    let mut s = Search::compile(&["a"]).unwrap();
    assert_eq!(s.next_bytes(&[0xC3]).unwrap(), vec![]);
    s.reset();
    assert_eq!(s.next("a"), vec![Match::new(0, (0, 1))]);
}

#[test]
fn reset_forgets_trailing_whitespace() {
    let mut s = Search::compile(&[" a"]).unwrap();
    let mut fresh = s.next(" a");
    fresh.extend(s.finish());
    assert_eq!(fresh, vec![Match::new(0, (0, 2))]);
    assert_eq!(s.next("x "), vec![]);
    s.reset();
    let mut again = s.next(" a");
    again.extend(s.finish());
    assert_eq!(again, fresh);
    assert_eq!(s.next("x "), vec![]);
    assert_eq!(s.finish(), vec![]);
    let mut after_finish = s.next(" a");
    after_finish.extend(s.finish());
    assert_eq!(after_finish, fresh);
}

#[test]
fn whitespace_segments() {
    assert!(word_is_whitespace(" \t\n"));
    assert!(word_is_whitespace(""));
    assert!(!word_is_whitespace(" a"));
    assert!(!word_is_whitespace("\r"));
    assert!(!word_is_whitespace("\u{a0}"));
}

#[test]
fn a_searcher_can_be_cloned() {
    let mut s = Search::compile(&["abb?"]).unwrap();
    assert_eq!(s.next("x ab"), vec![]);
    let mut t = s.clone();
    assert_eq!(s.next("b"), vec![Match::new(0, (2, 5))]);
    assert_eq!(t.finish(), vec![Match::new(0, (2, 4))]);
}
