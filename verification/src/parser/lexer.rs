//! The lexer: characters of a pattern to positioned tokens.

use super::Error;
use crate::encoding::{lemma_encode_one, lemma_encode_prefix, lemma_encode_push, lemma_scalar_len};
use vstd::prelude::*;
use vstd::utf8::{encode_scalar, encode_utf8};

verus! {

/// The kind of a token.
#[derive(Debug, Clone, Copy, PartialEq, Eq)]
pub enum Tok {
    /// A literal character; `escaped` if a backslash stood before it.
    Char { c: char, escaped: bool },
    Space,
    Digit,
    Or,
    QMark,
    LParen,
    RParen,
    Exclam,
    Star,
    Plus,
    Error(Error),
}

/// A token and the byte offset at which it starts.
#[derive(Debug)]
pub struct Token {
    pub start: usize,
    pub data: Tok,
}

/// The structural token that an unescaped `c` stands for, if any.
pub open spec fn reserved(c: char) -> Option<Tok> {
    if c == '|' {
        Some(Tok::Or)
    } else if c == '?' {
        Some(Tok::QMark)
    } else if c == '(' {
        Some(Tok::LParen)
    } else if c == ')' {
        Some(Tok::RParen)
    } else if c == '!' {
        Some(Tok::Exclam)
    } else if c == '+' {
        Some(Tok::Plus)
    } else if c == '*' {
        Some(Tok::Star)
    } else {
        None
    }
}

/// The token for `c` where no backslash stands before it: the structural
/// token of a reserved character, a space for the space character, and the
/// character itself for every other.
pub open spec fn plain(c: char) -> Tok {
    if reserved(c) is Some {
        reserved(c)->0
    } else if c == ' ' {
        Tok::Space
    } else {
        Tok::Char { c, escaped: false }
    }
}

/// The token for a backslash followed by `c`: a reserved character, a
/// backslash or a space is taken literally, `d` is a digit, anything else
/// needs no escape.
pub open spec fn escaped(c: char) -> Tok {
    if reserved(c) is Some || c == '\\' || c == ' ' {
        Tok::Char { c, escaped: true }
    } else if c == 'd' {
        Tok::Digit
    } else {
        Tok::Error(Error::UnnecessaryEscape)
    }
}

/// The first token of `rest` and the number of characters it covers; `None`
/// at the end of the input.
pub open spec fn scan(rest: Seq<char>) -> Option<(Tok, int)> {
    if rest.len() == 0 {
        None
    } else if rest[0] == '\\' {
        if rest.len() == 1 {
            Some((Tok::Error(Error::DanglingEscape), 1))
        } else {
            Some((escaped(rest[1]), 2))
        }
    } else {
        Some((plain(rest[0]), 1))
    }
}

/// The tokens of `rest`, the first of them starting at byte `pos`.
pub open spec fn lex(rest: Seq<char>, pos: int) -> Seq<Token>
    decreases rest.len(),
{
    match scan(rest) {
        None => Seq::empty(),
        Some((data, n)) => seq![Token { start: pos as usize, data }] + lex(
            rest.skip(n),
            pos + encode_utf8(rest.take(n)).len(),
        ),
    }
}

impl Token {
    /// The number of bytes that the token covers in the pattern.
    pub open spec fn width(self) -> int {
        match self.data {
            Tok::Char { c, escaped } => (if escaped {
                1int
            } else {
                0int
            }) + encode_scalar(c as u32).len(),
            Tok::Digit => 2,
            _ => 1,
        }
    }

    /// The token's span lies within the addressable range.
    pub open spec fn wf(self) -> bool {
        self.start + self.width() <= usize::MAX
    }

    pub fn char(start: usize, c: char, escaped: bool) -> (r: Token)
        ensures
            r == (Token { start, data: Tok::Char { c, escaped } }),
    {
        Token { start, data: Tok::Char { c, escaped } }
    }

    pub fn space(start: usize) -> (r: Token)
        ensures
            r == (Token { start, data: Tok::Space }),
    {
        Token { start, data: Tok::Space }
    }

    pub fn digit(start: usize) -> (r: Token)
        ensures
            r == (Token { start, data: Tok::Digit }),
    {
        Token { start, data: Tok::Digit }
    }

    pub fn error(start: usize, error: Error) -> (r: Token)
        ensures
            r == (Token { start, data: Tok::Error(error) }),
    {
        Token { start, data: Tok::Error(error) }
    }

    /// The error that the token carries, if it is one.
    pub fn get_error(&self) -> (r: Option<Error>)
        ensures
            r == match self.data {
                Tok::Error(e) => Some(e),
                _ => None,
            },
    {
        match self.data {
            Tok::Error(e) => Some(e),
            _ => None,
        }
    }

    /// The structural token for `c` at `start`, if `c` is reserved.
    pub fn reserved(start: usize, c: char) -> (r: Option<Token>)
        ensures
            r == match reserved(c) {
                Some(data) => Some(Token { start, data }),
                None => None,
            },
    {
        let data = match c {
            '|' => Tok::Or,
            '?' => Tok::QMark,
            '(' => Tok::LParen,
            ')' => Tok::RParen,
            '!' => Tok::Exclam,
            '+' => Tok::Plus,
            '*' => Tok::Star,
            _ => {
                return None;
            },
        };
        Some(Token { start, data })
    }

    /// The half-open byte span that the token covers.
    pub fn bounds(&self) -> (r: (usize, usize))
        requires
            self.wf(),
        ensures
            r.0 == self.start,
            r.1 == self.start + self.width(),
    {
        match self.data {
            Tok::Char { c, escaped } => {
                proof {
                    lemma_scalar_len(c);
                }
                if escaped {
                    (self.start, self.start + 1 + c.len_utf8())
                } else {
                    (self.start, self.start + c.len_utf8())
                }
            },
            Tok::Digit => (self.start, self.start + 2),
            _ => (self.start, self.start + 1),
        }
    }
}

/// A lexer over the characters of one pattern.
pub struct Lexer {
    code: Vec<char>,
    next: usize,
    pos: usize,
}

/// The characters of `s`, in order.
pub fn to_chars(s: &str) -> (r: Vec<char>)
    ensures
        r@ == s@,
{
    let mut chars: Vec<char> = Vec::new();
    for c in it: s.chars()
        invariant
            it.seq() == s@,
            chars@ == it.seq().take(it.index() as int),
    {
        chars.push(c);
    }
    chars
}

impl Lexer {
    /// The characters not yet turned into tokens.
    pub closed spec fn rest(&self) -> Seq<char> {
        self.code@.skip(self.next as int)
    }

    /// The byte offset of the next token.
    pub closed spec fn pos(&self) -> int {
        self.pos as int
    }

    /// The position is the byte length of what was consumed, and the whole
    /// input has an addressable length.
    pub closed spec fn wf(&self) -> bool {
        &&& self.next <= self.code.len()
        &&& self.pos == encode_utf8(self.code@.take(self.next as int)).len()
        &&& encode_utf8(self.code@).len() <= usize::MAX
    }

    /// A lexer at the start of `code`.
    pub fn new(code: &str) -> (r: Lexer)
        ensures
            r.wf(),
            r.rest() == code@,
            r.pos() == 0,
    {
        let chars = to_chars(code);
        let n = code.as_bytes().len();
        proof {
            assert(n == encode_utf8(code@).len());
            assert(chars@.take(0) =~= Seq::<char>::empty());
            assert(encode_utf8(Seq::<char>::empty()) =~= Seq::<u8>::empty());
            assert(chars@.skip(0) =~= chars@);
        }
        Lexer { code: chars, next: 0, pos: 0 }
    }

    /// The next token, or `None` at the end of the input.
    pub fn next(&mut self) -> (r: Option<Token>)
        requires
            old(self).wf(),
        ensures
            final(self).wf(),
            match scan(old(self).rest()) {
                None => r is None && final(self).rest() == old(self).rest() && final(self).pos()
                    == old(self).pos(),
                Some((data, n)) => {
                    &&& r == Some(Token { start: old(self).pos() as usize, data })
                    &&& r->0.wf()
                    &&& final(self).rest() == old(self).rest().skip(n)
                    &&& final(self).pos() == old(self).pos() + encode_utf8(
                        old(self).rest().take(n),
                    ).len()
                },
            },
    {
        if self.next >= self.code.len() {
            return None;
        }
        let start = self.pos;
        let c = self.code[self.next];
        let ghost rest = self.rest();
        proof {
            lemma_encode_prefix(self.code@, self.next + 1);
            assert(self.code@.take(self.next + 1) =~= self.code@.take(self.next as int).push(c));
            lemma_encode_push(self.code@.take(self.next as int), c);
            lemma_scalar_len(c);
            assert(rest.take(1) =~= seq![c]);
            lemma_encode_one(c);
            assert(rest.skip(1) =~= self.code@.skip(self.next + 1));
        }
        self.next += 1;
        self.pos += c.len_utf8();
        if c != '\\' {
            return match Token::reserved(start, c) {
                Some(tok) => Some(tok),
                None => {
                    if c == ' ' {
                        Some(Token::space(start))
                    } else {
                        Some(Token::char(start, c, false))
                    }
                },
            };
        }
        if self.next >= self.code.len() {
            return Some(Token::error(start, Error::DanglingEscape));
        }
        let d = self.code[self.next];
        proof {
            lemma_encode_prefix(self.code@, self.next + 1);
            assert(self.code@.take(self.next + 1) =~= self.code@.take(self.next as int).push(d));
            lemma_encode_push(self.code@.take(self.next as int), d);
            lemma_scalar_len(d);
            assert(rest.take(2) =~= seq![c].push(d));
            lemma_encode_push(seq![c], d);
            assert(rest.skip(2) =~= self.code@.skip(self.next + 1));
        }
        self.next += 1;
        self.pos += d.len_utf8();
        match Token::reserved(start, d) {
            Some(_) => Some(Token::char(start, d, true)),
            None => {
                if d == '\\' || d == ' ' {
                    Some(Token::char(start, d, true))
                } else if d == 'd' {
                    Some(Token::digit(start))
                } else {
                    Some(Token::error(start, Error::UnnecessaryEscape))
                }
            },
        }
    }

    /// All tokens from the lexer's position to the end of the input.
    pub fn tokens(&mut self) -> (r: Vec<Token>)
        requires
            old(self).wf(),
        ensures
            final(self).wf(),
            final(self).rest().len() == 0,
            r@ == lex(old(self).rest(), old(self).pos()),
            forall|i: int| 0 <= i < r@.len() ==> (#[trigger] r@[i]).wf(),
    {
        let mut out: Vec<Token> = Vec::new();
        loop
            invariant
                self.wf(),
                lex(old(self).rest(), old(self).pos()) == out@ + lex(self.rest(), self.pos()),
                forall|i: int| 0 <= i < out@.len() ==> (#[trigger] out@[i]).wf(),
            decreases self.rest().len(),
        {
            let ghost before = out@;
            let ghost rest = self.rest();
            match self.next() {
                None => {
                    assert(lex(rest, self.pos()) =~= Seq::<Token>::empty());
                    assert(out@ + Seq::<Token>::empty() =~= out@);
                    return out;
                },
                Some(tok) => {
                    out.push(tok);
                    assert(out@ + lex(self.rest(), self.pos()) =~= before + lex(rest, tok.start as int));
                },
            }
        }
    }
}

} // verus!
