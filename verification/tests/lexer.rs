use reggy::parser::lexer::{Lexer, Tok, Token};
use reggy::Error;

fn kinds(code: &str) -> Vec<Tok> {
    let mut lexer = Lexer::new(code);
    lexer.tokens().iter().map(|token| token.data).collect()
}

fn spans(code: &str) -> Vec<(usize, usize)> {
    let mut lexer = Lexer::new(code);
    lexer.tokens().iter().map(|token| token.bounds()).collect()
}

#[test]
fn lexer_reserved_characters() {
    assert_eq!(
        kinds("|?()!*+"),
        vec![
            Tok::Or,
            Tok::QMark,
            Tok::LParen,
            Tok::RParen,
            Tok::Exclam,
            Tok::Star,
            Tok::Plus
        ]
    );
}

#[test]
fn lexer_plain_characters() {
    assert_eq!(
        kinds("a# {é"),
        vec![
            Tok::Char {
                c: 'a',
                escaped: false
            },
            Tok::Char {
                c: '#',
                escaped: false
            },
            Tok::Space,
            Tok::Char {
                c: '{',
                escaped: false
            },
            Tok::Char {
                c: 'é',
                escaped: false
            },
        ]
    );
    assert_eq!(
        kinds("\t\n"),
        vec![
            Tok::Char {
                c: '\t',
                escaped: false
            },
            Tok::Char {
                c: '\n',
                escaped: false
            }
        ]
    );
    assert_eq!(kinds(""), vec![]);
}

#[test]
fn lexer_escapes() {
    assert_eq!(
        kinds(r"\?\\\d\ \+"),
        vec![
            Tok::Char {
                c: '?',
                escaped: true
            },
            Tok::Char {
                c: '\\',
                escaped: true
            },
            Tok::Digit,
            Tok::Char {
                c: ' ',
                escaped: true
            },
            Tok::Char {
                c: '+',
                escaped: true
            },
        ]
    );
    assert_eq!(
        kinds(r"a\x"),
        vec![
            Tok::Char {
                c: 'a',
                escaped: false
            },
            Tok::Error(Error::UnnecessaryEscape)
        ]
    );
    assert_eq!(
        kinds("a\\"),
        vec![
            Tok::Char {
                c: 'a',
                escaped: false
            },
            Tok::Error(Error::DanglingEscape)
        ]
    );
    assert_eq!(
        kinds(r"\xa"),
        vec![
            Tok::Error(Error::UnnecessaryEscape),
            Tok::Char {
                c: 'a',
                escaped: false
            }
        ]
    );
}

#[test]
fn lexer_byte_offsets() {
    assert_eq!(spans("ab"), vec![(0, 1), (1, 2)]);
    assert_eq!(spans(r"a\?b"), vec![(0, 1), (1, 3), (3, 4)]);
    assert_eq!(spans(r"\da"), vec![(0, 2), (2, 3)]);
    assert_eq!(spans("Ⲁ(ⲗ)"), vec![(0, 3), (3, 4), (4, 7), (7, 8)]);
    assert_eq!(spans("𝄞 é?"), vec![(0, 4), (4, 5), (5, 7), (7, 8)]);
    assert_eq!(spans("a\\"), vec![(0, 1), (1, 2)]);
}

#[test]
fn lexer_yields_tokens_one_by_one() {
    let mut lexer = Lexer::new("a|");
    let first = lexer.next().unwrap();
    assert_eq!(first.start, 0);
    assert_eq!(
        first.data,
        Tok::Char {
            c: 'a',
            escaped: false
        }
    );
    assert_eq!(first.get_error(), None);
    let second = lexer.next().unwrap();
    assert_eq!(second.start, 1);
    assert_eq!(second.data, Tok::Or);
    assert!(lexer.next().is_none());
    assert!(lexer.next().is_none());
}

#[test]
fn token_constructors() {
    assert_eq!(Token::char(3, 'x', true).bounds(), (3, 5));
    assert_eq!(Token::char(3, 'é', false).bounds(), (3, 5));
    assert_eq!(Token::space(3).bounds(), (3, 4));
    assert_eq!(Token::digit(3).bounds(), (3, 5));
    assert_eq!(Token::error(3, Error::DanglingEscape).bounds(), (3, 4));
    assert_eq!(
        Token::error(3, Error::DanglingEscape).get_error(),
        Some(Error::DanglingEscape)
    );
    assert_eq!(Token::reserved(7, '|').unwrap().data, Tok::Or);
    assert_eq!(Token::reserved(7, '|').unwrap().start, 7);
    assert!(Token::reserved(7, 'a').is_none());
    assert!(Token::reserved(7, '#').is_none());
}
