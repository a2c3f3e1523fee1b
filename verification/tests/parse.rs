use reggy::Ast;
use reggy::Ast::{Char, Concat, Digit, Optional, Or, Quantifier, CS};
use reggy::Error::{DanglingEscape, ParseError, UnnecessaryEscape};

#[test]
fn parse_group() {
    assert_eq!(
        Ast::parse(r"fallac(y|ies)"),
        Ok(Concat(vec![
            Char('f'),
            Char('a'),
            Char('l'),
            Char('l'),
            Char('a'),
            Char('c'),
            Or(vec![Char('y'), Concat(vec![Char('i'), Char('e'), Char('s')])])
        ]))
    )
}

#[test]
fn parse_basic_escape() {
    assert_eq!(
        Ast::parse(r"foo\??"),
        Ok(Concat(vec![
            Char('f'),
            Char('o'),
            Char('o'),
            Optional(Box::new(Char('?')))
        ]))
    )
}

#[test]
fn case_sensitive() {
    assert_eq!(
        Ast::parse(r"foo(!b|AR)"),
        Ok(Concat(vec![
            Char('f'),
            Char('o'),
            Char('o'),
            CS(Box::new(Or(vec![
                Char('b'),
                Concat(vec![Char('A'), Char('R'),])
            ])))
        ]))
    )
}

#[test]
fn parse_digits() {
    assert_eq!(
        Ast::parse(r"#?.##"),
        Ok(Concat(vec![
            Optional(Box::new(Digit)),
            Char('.'),
            Digit,
            Digit
        ]))
    )
}

#[test]
fn parse_unicode() {
    assert_eq!(
        Ast::parse(r"Ⲁ(ⲗⲗ)?ⲫⲁ"),
        Ok(Concat(vec![
            Char('Ⲁ'),
            Optional(Box::new(Concat(vec![Char('ⲗ'), Char('ⲗ'),]))),
            Char('ⲫ'),
            Char('ⲁ'),
        ]))
    )
}

#[test]
fn parse_quantifiers() {
    assert_eq!(
        Ast::parse(r"a{10}b{2,3}(cde){4}"),
        Ok(Concat(vec![
            Quantifier(Box::new(Char('a')), 10, 10),
            Quantifier(Box::new(Char('b')), 2, 3),
            Quantifier(Box::new(Concat(vec![Char('c'), Char('d'), Char('e')])), 4, 4),
        ]))
    )
}

#[test]
fn parse_star_and_plus() {
    assert_eq!(
        Ast::parse("a*b+"),
        Ok(Concat(vec![
            Ast::ZeroOrMore(Box::new(Char('a'))),
            Ast::OneOrMore(Box::new(Char('b'))),
        ]))
    );
    assert_eq!(
        Ast::parse("(ab)*?"),
        Ok(Optional(Box::new(Ast::ZeroOrMore(Box::new(Concat(vec![
            Char('a'),
            Char('b')
        ]))))))
    );
}

#[test]
fn parse_single_atoms() {
    assert_eq!(Ast::parse("a"), Ok(Char('a')));
    assert_eq!(Ast::parse("#"), Ok(Digit));
    assert_eq!(Ast::parse(r"\d"), Ok(Digit));
    assert_eq!(Ast::parse(" "), Ok(Ast::Space));
    assert_eq!(Ast::parse(r"\\"), Ok(Char('\\')));
    assert_eq!(Ast::parse(r"\|"), Ok(Char('|')));
    assert_eq!(Ast::parse("(a)"), Ok(Char('a')));
    assert_eq!(Ast::parse("((a))"), Ok(Char('a')));
}

#[test]
fn parse_exclamation_mark() {
    assert_eq!(Ast::parse("!"), Ok(Char('!')));
    assert_eq!(Ast::parse("a!"), Ok(Concat(vec![Char('a'), Char('!')])));
    assert_eq!(Ast::parse("(!a)"), Ok(CS(Box::new(Char('a')))));
    assert_eq!(Ast::parse("(a!)"), Ok(Concat(vec![Char('a'), Char('!')])));
    assert_eq!(Ast::parse("(!!)"), Ok(CS(Box::new(Char('!')))));
    assert_eq!(Ast::parse(r"\!"), Ok(Char('!')));
}

#[test]
fn parse_whitespace_in_patterns() {
    let folded = Ok(Concat(vec![Char('a'), Ast::Space, Char('b')]));
    assert_eq!(Ast::parse("a b"), folded);
    assert_eq!(Ast::parse("a  b"), folded);
    assert_eq!(Ast::parse("a \t\n b"), folded);
    assert_eq!(Ast::parse("a\tb"), folded);
    assert_eq!(Ast::parse("  "), Ok(Ast::Space));
    assert_eq!(Ast::parse("( ) "), Ok(Ast::Space));
    assert_eq!(
        Ast::parse(r"a\ b"),
        Ok(Concat(vec![Char('a'), Char(' '), Char('b')]))
    );
    assert_eq!(
        Ast::parse("a ( b)"),
        Ok(Concat(vec![
            Char('a'),
            Ast::Space,
            Concat(vec![Ast::Space, Char('b')])
        ]))
    );
}

#[test]
fn parse_drops_needless_case_marks() {
    assert_eq!(Ast::parse("(!#)"), Ok(Digit));
    assert_eq!(
        Ast::parse("(!# #)"),
        Ok(Concat(vec![Digit, Ast::Space, Digit]))
    );
    assert_eq!(Ast::parse("(!(!a))"), Ok(CS(Box::new(Char('a')))));
    assert_eq!(
        Ast::parse("(!#|(!a))"),
        Ok(Or(vec![Digit, CS(Box::new(Char('a')))]))
    );
    assert_eq!(
        Ast::parse("(!#?|a)"),
        Ok(CS(Box::new(Or(vec![Optional(Box::new(Digit)), Char('a')]))))
    );
}

#[test]
fn parse_alternation_is_flat() {
    assert_eq!(
        Ast::parse("a|b|c"),
        Ok(Or(vec![Char('a'), Char('b'), Char('c')]))
    );
    assert_eq!(
        Ast::parse("(a|b)|c"),
        Ok(Or(vec![Char('a'), Char('b'), Char('c')]))
    );
    assert_eq!(
        Ast::parse("a|(b|c)"),
        Ok(Or(vec![Char('a'), Or(vec![Char('b'), Char('c')])]))
    );
    assert_eq!(
        Ast::parse("ab|c"),
        Ok(Or(vec![Concat(vec![Char('a'), Char('b')]), Char('c')]))
    );
}

#[test]
fn parse_counted_repetitions() {
    assert_eq!(
        Ast::parse("a{0}"),
        Ok(Quantifier(Box::new(Char('a')), 0, 0))
    );
    assert_eq!(
        Ast::parse("a{007,12}"),
        Ok(Quantifier(Box::new(Char('a')), 7, 12))
    );
    assert_eq!(
        Ast::parse("a{3,3}"),
        Ok(Quantifier(Box::new(Char('a')), 3, 3))
    );
    assert_eq!(
        Ast::parse("a{2}{3,4}"),
        Ok(Quantifier(
            Box::new(Quantifier(Box::new(Char('a')), 2, 2)),
            3,
            4
        ))
    );
    assert_eq!(
        Ast::parse("a{4294967295}"),
        Ok(Quantifier(Box::new(Char('a')), 4294967295, 4294967295))
    );
    assert_eq!(
        Ast::parse("a{0,4294967295}"),
        Ok(Quantifier(Box::new(Char('a')), 0, 4294967295))
    );
    assert_eq!(
        Ast::parse("1,2"),
        Ok(Concat(vec![Char('1'), Char(','), Char('2')]))
    );
}

#[test]
fn parse_errors() {
    assert_eq!(Ast::parse(""), Err(ParseError));
    assert_eq!(Ast::parse("(a"), Err(ParseError));
    assert_eq!(Ast::parse("a)"), Err(ParseError));
    assert_eq!(Ast::parse("()"), Err(ParseError));
    assert_eq!(Ast::parse("(!)"), Err(ParseError));
    assert_eq!(Ast::parse("a|"), Err(ParseError));
    assert_eq!(Ast::parse("|a"), Err(ParseError));
    assert_eq!(Ast::parse("?"), Err(ParseError));
    assert_eq!(Ast::parse("*a"), Err(ParseError));
    assert_eq!(Ast::parse("a{"), Err(ParseError));
    assert_eq!(Ast::parse("a{}"), Err(ParseError));
    assert_eq!(Ast::parse("a{2"), Err(ParseError));
    assert_eq!(Ast::parse("a{2,}"), Err(ParseError));
    assert_eq!(Ast::parse("a{,2}"), Err(ParseError));
    assert_eq!(Ast::parse("a{1, 2}"), Err(ParseError));
    assert_eq!(Ast::parse("a{3,2}"), Err(ParseError));
    assert_eq!(Ast::parse("a{4294967296}"), Err(ParseError));
    assert_eq!(Ast::parse("a{4294967296,4294967297}"), Err(ParseError));
    assert_eq!(Ast::parse("{2}"), Err(ParseError));
    assert_eq!(Ast::parse("a}"), Err(ParseError));
    assert_eq!(Ast::parse("a\\"), Err(DanglingEscape));
    assert_eq!(Ast::parse("\\"), Err(DanglingEscape));
    assert_eq!(Ast::parse(r"a\x"), Err(UnnecessaryEscape));
    assert_eq!(Ast::parse(r"\#"), Err(UnnecessaryEscape));
    assert_eq!(Ast::parse(r"a\{2}"), Err(UnnecessaryEscape));
}

#[test]
fn parse_reports_the_first_problem() {
    assert_eq!(Ast::parse(r"a)\x"), Err(ParseError));
    assert_eq!(Ast::parse(r"a\x)"), Err(UnnecessaryEscape));
    assert_eq!(Ast::parse(r"(a\"), Err(DanglingEscape));
    assert_eq!(Ast::parse(r"a{\x}"), Err(UnnecessaryEscape));
    assert_eq!(Ast::parse(r"a{1\"), Err(DanglingEscape));
}

#[test]
fn max_bytes_follows_the_tree() {
    assert_eq!(Ast::parse("a").unwrap().max_bytes(), 1);
    assert_eq!(Ast::parse("é").unwrap().max_bytes(), 2);
    assert_eq!(Ast::parse("Ⲁ").unwrap().max_bytes(), 3);
    assert_eq!(Ast::parse("𝄞").unwrap().max_bytes(), 4);
    assert_eq!(Ast::parse("#").unwrap().max_bytes(), 1);
    assert_eq!(Ast::parse(" ").unwrap().max_bytes(), 1);
    assert_eq!(Ast::parse("a?").unwrap().max_bytes(), 1);
    assert_eq!(Ast::parse("(!ab)").unwrap().max_bytes(), 2);
    assert_eq!(Ast::parse("ab|cde|f").unwrap().max_bytes(), 3);
    assert_eq!(Ast::parse("ab cd").unwrap().max_bytes(), 5);
    assert_eq!(Ast::parse("(ab){2,7}").unwrap().max_bytes(), 14);
    assert_eq!(Ast::parse("a{10}").unwrap().max_bytes(), 10);
    assert_eq!(Ast::parse("a{0,0}").unwrap().max_bytes(), 0);
    assert_eq!(Ast::parse("(very ){1,4}strange").unwrap().max_bytes(), 27);
    assert_eq!(Ast::parse("(ab){3}c").unwrap().max_bytes(), 7);
    assert_eq!(Ast::parse("$#?#?#.##").unwrap().max_bytes(), 7);
    assert_eq!(Ast::Or(vec![]).max_bytes(), 0);
    assert_eq!(Ast::Concat(vec![]).max_bytes(), 0);
}

#[test]
fn max_bytes_without_a_bound() {
    assert_eq!(Ast::parse("a*").unwrap().max_bytes(), usize::MAX);
    assert_eq!(Ast::parse("a+b").unwrap().max_bytes(), usize::MAX);
    assert_eq!(Ast::parse("(a*){3}").unwrap().max_bytes(), usize::MAX);
    assert_eq!(Ast::parse("(a{0,0})*").unwrap().max_bytes(), 0);
    assert_eq!(
        Ast::parse("a{4294967294}{4294967294}{4294967294}")
            .unwrap()
            .max_bytes(),
        usize::MAX
    );
}

#[test]
fn builders_keep_the_normal_form() {
    assert_eq!(Ast::concat(Ast::space(), Ast::space()), Ast::Space);
    assert_eq!(
        Ast::concat(Ast::char('a'), Ast::space()),
        Concat(vec![Char('a'), Ast::Space])
    );
    assert_eq!(
        Ast::concat(Concat(vec![Char('a'), Ast::Space]), Ast::space()),
        Concat(vec![Char('a'), Ast::Space])
    );
    assert_eq!(
        Ast::concat(Concat(vec![]), Ast::space()),
        Concat(vec![Ast::Space])
    );
    assert_eq!(
        Ast::or(Or(vec![Char('a')]), Ast::digit()),
        Or(vec![Char('a'), Digit])
    );
    assert_eq!(Ast::case_sensitive(Ast::digit()), Digit);
    assert_eq!(
        Ast::case_sensitive(Ast::char('a')),
        CS(Box::new(Char('a')))
    );
    assert_eq!(
        Ast::quantifier_exact(Ast::char('a'), 3),
        Quantifier(Box::new(Char('a')), 3, 3)
    );
    assert_eq!(
        Ast::quantifier_range(Ast::char('a'), 3, 9),
        Quantifier(Box::new(Char('a')), 3, 9)
    );
    assert_eq!(
        Ast::optional(Ast::char('a')),
        Optional(Box::new(Char('a')))
    );
    assert!(Ast::digit().is_cs());
    assert!(!Ast::char('a').is_cs());
    assert!(Or(vec![Digit, Ast::Space]).is_cs());
    assert!(!Concat(vec![Digit, Char('a')]).is_cs());
    assert!(Ast::zero_or_more(Ast::digit()).is_cs());
    assert!(!Ast::one_or_more(Ast::char('a')).is_cs());
}

#[test]
fn parse_tab_and_newline_are_whitespace() {
    assert_eq!(Ast::parse("\t"), Ok(Ast::Space));
    assert_eq!(Ast::parse("\n"), Ok(Ast::Space));
    assert_eq!(
        Ast::parse("a\n\tb"),
        Ok(Concat(vec![Char('a'), Ast::Space, Char('b')]))
    );
    assert_eq!(Ast::parse("\t?"), Ok(Optional(Box::new(Ast::Space))));
}
