//! The grammar of patterns: tokens to a syntax tree.
//!
//! From lowest to highest precedence: alternation with `|`, concatenation by
//! juxtaposition, the postfix quantifiers `?`, `*`, `+`, `{n}` and `{n,m}`, and
//! atoms. An atom is a character, a digit, a space, a group `( .. )` or a
//! case-sensitive group `(! .. )`.

use super::ast::{lemma_concat_normal, lemma_or_normal, Ast, Syntax};
use super::lexer::{Tok, Token};
use super::Error;
use vstd::prelude::*;

verus! {

/// The error for a token that cannot stand where it was found: a lexer
/// error as it is, a grammar violation otherwise.
pub open spec fn unexpected(t: Tok) -> Error {
    match t {
        Tok::Error(e) => e,
        _ => Error::ParseError,
    }
}

/// An unescaped brace: it only ever opens or closes a counted repetition.
pub open spec fn is_brace(t: Tok) -> bool {
    t == (Tok::Char { c: '{', escaped: false }) || t == (Tok::Char { c: '}', escaped: false })
}

/// A tab or a newline: in a pattern they stand for whitespace.
pub open spec fn is_blank_char(c: char) -> bool {
    c == '\t' || c == '\n'
}

/// The decimal digit that `t` stands for inside braces, if it is one.
pub open spec fn digit_of(t: Tok) -> Option<nat> {
    match t {
        Tok::Char { c, escaped: false } => if '0' <= c <= '9' {
            Some((c as u32 - '0' as u32) as nat)
        } else {
            None
        },
        _ => None,
    }
}

/// Whether `t` can begin an atom. A lexer error counts, so that it is
/// reported where it stands.
pub open spec fn starts_atom(t: Tok) -> bool {
    match t {
        Tok::Char { .. } => !is_brace(t),
        Tok::Digit | Tok::Space | Tok::Exclam | Tok::LParen | Tok::Error(_) => true,
        _ => false,
    }
}

/// The end of the longest run of digits that starts at `i`.
pub open spec fn digits_end(toks: Seq<Token>, i: int) -> int
    decreases toks.len() - i,
{
    if 0 <= i < toks.len() && digit_of(toks[i].data) is Some {
        digits_end(toks, i + 1)
    } else {
        i
    }
}

/// The number that the digits `toks[i..j]` write in base ten.
pub open spec fn number(toks: Seq<Token>, i: int, j: int) -> nat
    decreases j - i,
{
    if j <= i {
        0
    } else {
        number(toks, i, j - 1) * 10 + digit_of(toks[j - 1].data).unwrap_or(0)
    }
}

/// The error at position `i`: that of the token there, a grammar violation
/// at the end of the input.
pub open spec fn fault(toks: Seq<Token>, i: int) -> Error {
    if 0 <= i < toks.len() {
        unexpected(toks[i].data)
    } else {
        Error::ParseError
    }
}

/// The counted repetition whose opening brace stands at `i - 1`: `n}` gives
/// `(n, n)` and `n,m}` gives `(n, m)`, with the index after the closing
/// brace. Both numbers fit in `u32`, and `n <= m`.
pub open spec fn parse_count(toks: Seq<Token>, i: int) -> Result<(u32, u32, int), Error> {
    let a = digits_end(toks, i);
    let n = number(toks, i, a);
    if a == i || a >= toks.len() {
        Err(fault(toks, a))
    } else if toks[a].data == (Tok::Char { c: '}', escaped: false }) {
        if n <= u32::MAX {
            Ok((n as u32, n as u32, a + 1))
        } else {
            Err(Error::ParseError)
        }
    } else if toks[a].data == (Tok::Char { c: ',', escaped: false }) {
        let b = digits_end(toks, a + 1);
        let m = number(toks, a + 1, b);
        if b == a + 1 || b >= toks.len() {
            Err(fault(toks, b))
        } else if toks[b].data == (Tok::Char { c: '}', escaped: false }) {
            if n <= m <= u32::MAX {
                Ok((n as u32, m as u32, b + 1))
            } else {
                Err(Error::ParseError)
            }
        } else {
            Err(fault(toks, b))
        }
    } else {
        Err(fault(toks, a))
    }
}

/// An alternation that starts at `i`: the tree and the index after it.
pub open spec fn parse_alt(toks: Seq<Token>, i: int) -> Result<(Syntax, int), Error>
    decreases toks.len() - i, 7int,
{
    if !(0 <= i < toks.len()) {
        Err(Error::ParseError)
    } else {
        match parse_seq(toks, i) {
            Err(e) => Err(e),
            Ok((first, j)) => if i < j <= toks.len() {
                alt_rest(toks, first, j)
            } else {
                Err(Error::ParseError)
            },
        }
    }
}

/// The alternatives that follow `lhs`, which ends before `j`.
pub open spec fn alt_rest(toks: Seq<Token>, lhs: Syntax, j: int) -> Result<(Syntax, int), Error>
    decreases toks.len() - j, 6int,
{
    if 0 <= j < toks.len() && toks[j].data == Tok::Or {
        match parse_seq(toks, j + 1) {
            Err(e) => Err(e),
            Ok((rhs, k)) => if j < k <= toks.len() {
                alt_rest(toks, Syntax::or(lhs, rhs), k)
            } else {
                Err(Error::ParseError)
            },
        }
    } else {
        Ok((lhs, j))
    }
}

/// A concatenation that starts at `i`.
pub open spec fn parse_seq(toks: Seq<Token>, i: int) -> Result<(Syntax, int), Error>
    decreases toks.len() - i, 5int,
{
    if !(0 <= i < toks.len()) {
        Err(Error::ParseError)
    } else {
        match parse_postfix(toks, i) {
            Err(e) => Err(e),
            Ok((first, j)) => if i < j <= toks.len() {
                seq_rest(toks, first, j)
            } else {
                Err(Error::ParseError)
            },
        }
    }
}

/// The items that follow `lhs`, which ends before `j`.
pub open spec fn seq_rest(toks: Seq<Token>, lhs: Syntax, j: int) -> Result<(Syntax, int), Error>
    decreases toks.len() - j, 4int,
{
    if 0 <= j < toks.len() && starts_atom(toks[j].data) {
        match parse_postfix(toks, j) {
            Err(e) => Err(e),
            Ok((rhs, k)) => if j < k <= toks.len() {
                seq_rest(toks, Syntax::concat(lhs, rhs), k)
            } else {
                Err(Error::ParseError)
            },
        }
    } else {
        Ok((lhs, j))
    }
}

/// An atom with the quantifiers that follow it, starting at `i`.
pub open spec fn parse_postfix(toks: Seq<Token>, i: int) -> Result<(Syntax, int), Error>
    decreases toks.len() - i, 3int,
{
    if !(0 <= i < toks.len()) {
        Err(Error::ParseError)
    } else {
        match parse_atom(toks, i) {
            Err(e) => Err(e),
            Ok((atom, j)) => if i < j <= toks.len() {
                quant_rest(toks, atom, j)
            } else {
                Err(Error::ParseError)
            },
        }
    }
}

/// The quantifiers that follow `inner`, which ends before `j`.
pub open spec fn quant_rest(toks: Seq<Token>, inner: Syntax, j: int) -> Result<
    (Syntax, int),
    Error,
>
    decreases toks.len() - j,
{
    if !(0 <= j < toks.len()) {
        Ok((inner, j))
    } else if toks[j].data == Tok::QMark {
        quant_rest(toks, Syntax::Optional(Box::new(inner)), j + 1)
    } else if toks[j].data == Tok::Star {
        quant_rest(toks, Syntax::ZeroOrMore(Box::new(inner)), j + 1)
    } else if toks[j].data == Tok::Plus {
        quant_rest(toks, Syntax::OneOrMore(Box::new(inner)), j + 1)
    } else if toks[j].data == (Tok::Char { c: '{', escaped: false }) {
        match parse_count(toks, j + 1) {
            Err(e) => Err(e),
            Ok((min, max, k)) => if j < k <= toks.len() {
                quant_rest(toks, Syntax::Quantifier(Box::new(inner), min, max), k)
            } else {
                Err(Error::ParseError)
            },
        }
    } else {
        Ok((inner, j))
    }
}

/// An atom that starts at `i`. An exclamation mark is a literal except
/// directly after an opening parenthesis; an unescaped `#` is a digit, and a
/// tab or a newline is whitespace as a space is.
pub open spec fn parse_atom(toks: Seq<Token>, i: int) -> Result<(Syntax, int), Error>
    decreases toks.len() - i, 1int,
{
    if !(0 <= i < toks.len()) {
        Err(Error::ParseError)
    } else {
        match toks[i].data {
            Tok::Char { c, escaped } => if is_brace(toks[i].data) {
                Err(Error::ParseError)
            } else if c == '#' && !escaped {
                Ok((Syntax::Digit, i + 1))
            } else if is_blank_char(c) && !escaped {
                Ok((Syntax::Space, i + 1))
            } else {
                Ok((Syntax::Char(c), i + 1))
            },
            Tok::Digit => Ok((Syntax::Digit, i + 1)),
            Tok::Space => Ok((Syntax::Space, i + 1)),
            Tok::Exclam => Ok((Syntax::Char('!'), i + 1)),
            Tok::LParen => {
                let marked = i + 1 < toks.len() && toks[i + 1].data == Tok::Exclam;
                let from = if marked {
                    i + 2
                } else {
                    i + 1
                };
                match parse_alt(toks, from) {
                    Err(e) => Err(e),
                    Ok((inner, j)) => if 0 <= j < toks.len() && toks[j].data == Tok::RParen {
                        Ok(
                            (
                                if marked {
                                    Syntax::case_sensitive(inner)
                                } else {
                                    inner
                                },
                                j + 1,
                            ),
                        )
                    } else {
                        Err(fault(toks, j))
                    },
                }
            },
            t => Err(unexpected(t)),
        }
    }
}

/// The tree that the whole token sequence writes.
pub open spec fn parse_tokens(toks: Seq<Token>) -> Result<Syntax, Error> {
    match parse_alt(toks, 0) {
        Err(e) => Err(e),
        Ok((tree, j)) => if j == toks.len() {
            Ok(tree)
        } else {
            Err(fault(toks, j))
        },
    }
}

/// Whether an executable result is the given mathematical one.
pub open spec fn agrees(r: Result<(Ast, usize), Error>, s: Result<(Syntax, int), Error>) -> bool {
    match (r, s) {
        (Ok((tree, j)), Ok((syntax, k))) => tree@ == syntax && j == k,
        (Err(e), Err(f)) => e == f,
        _ => false,
    }
}

/// What a successful result holds: a tree in normal form that ends after `i`.
pub open spec fn advances(r: Result<(Ast, usize), Error>, i: usize, len: usize) -> bool {
    match r {
        Ok((tree, j)) => i < j <= len && tree@.normal(),
        Err(_) => true,
    }
}

fn is_open_brace(t: Tok) -> (r: bool)
    ensures
        r == (t == (Tok::Char { c: '{', escaped: false })),
{
    match t {
        Tok::Char { c, escaped } => c == '{' && !escaped,
        _ => false,
    }
}

fn is_close_brace(t: Tok) -> (r: bool)
    ensures
        r == (t == (Tok::Char { c: '}', escaped: false })),
{
    match t {
        Tok::Char { c, escaped } => c == '}' && !escaped,
        _ => false,
    }
}

fn is_comma(t: Tok) -> (r: bool)
    ensures
        r == (t == (Tok::Char { c: ',', escaped: false })),
{
    match t {
        Tok::Char { c, escaped } => c == ',' && !escaped,
        _ => false,
    }
}

fn digit(t: Tok) -> (r: Option<u64>)
    ensures
        match digit_of(t) {
            Some(d) => r == Some(d as u64) && d <= 9,
            None => r is None,
        },
{
    match t {
        Tok::Char { c, escaped } => {
            if !escaped && '0' <= c && c <= '9' {
                Some((c as u32 - '0' as u32) as u64)
            } else {
                None
            }
        },
        _ => None,
    }
}

fn can_start_atom(t: Tok) -> (r: bool)
    ensures
        r == starts_atom(t),
{
    match t {
        Tok::Char { .. } => !is_open_brace(t) && !is_close_brace(t),
        Tok::Digit | Tok::Space | Tok::Exclam | Tok::LParen | Tok::Error(_) => true,
        _ => false,
    }
}

fn fault_at(toks: &Vec<Token>, i: usize) -> (r: Error)
    ensures
        r == fault(toks@, i as int),
{
    if i < toks.len() {
        match toks[i].data {
            Tok::Error(e) => e,
            _ => Error::ParseError,
        }
    } else {
        Error::ParseError
    }
}

/// More digits never make the number smaller.
proof fn lemma_number_grows(toks: Seq<Token>, i: int, j: int, k: int)
    requires
        i <= j <= k,
    ensures
        number(toks, i, j) <= number(toks, i, k),
    decreases k - j,
{
    if j < k {
        lemma_number_grows(toks, i, j, k - 1);
    }
}

/// The digits from `i` on: where they end, and their value unless it
/// exceeds `u32::MAX`.
fn digits(toks: &Vec<Token>, i: usize) -> (r: (usize, Option<u32>))
    requires
        i <= toks.len(),
    ensures
        r.0 == digits_end(toks@, i as int),
        i <= r.0 <= toks.len(),
        match r.1 {
            Some(n) => n == number(toks@, i as int, r.0 as int),
            None => number(toks@, i as int, r.0 as int) > u32::MAX,
        },
{
    let mut j: usize = i;
    let mut value: u64 = 0;
    let mut fits: bool = true;
    while j < toks.len()
        invariant
            i <= j <= toks.len(),
            digits_end(toks@, i as int) == digits_end(toks@, j as int),
            fits ==> value == number(toks@, i as int, j as int) && value <= u32::MAX,
            !fits ==> number(toks@, i as int, j as int) > u32::MAX,
        ensures
            digits_end(toks@, j as int) == j,
        decreases toks.len() - j,
    {
        match digit(toks[j].data) {
            None => {
                break ;
            },
            Some(d) => {
                proof {
                    lemma_number_grows(toks@, i as int, j as int, j + 1);
                }
                if fits {
                    value = value * 10 + d;
                    if value > 0xffff_ffff {
                        fits = false;
                    }
                }
                j += 1;
            },
        }
    }
    if fits {
        (j, Some(value as u32))
    } else {
        (j, None)
    }
}

/// The counted repetition after an opening brace.
fn count(toks: &Vec<Token>, i: usize) -> (r: Result<(u32, u32, usize), Error>)
    requires
        i <= toks.len(),
    ensures
        match (r, parse_count(toks@, i as int)) {
            (Ok((min, max, j)), Ok((n, m, k))) => min == n && max == m && j == k && i < j
                <= toks.len() && min <= max,
            (Err(e), Err(f)) => e == f,
            _ => false,
        },
{
    let (a, n) = digits(toks, i);
    if a == i || a >= toks.len() {
        return Err(fault_at(toks, a));
    }
    if is_close_brace(toks[a].data) {
        return match n {
            Some(n) => Ok((n, n, a + 1)),
            None => Err(Error::ParseError),
        };
    }
    if !is_comma(toks[a].data) {
        return Err(fault_at(toks, a));
    }
    let (b, m) = digits(toks, a + 1);
    if b == a + 1 || b >= toks.len() {
        return Err(fault_at(toks, b));
    }
    if !is_close_brace(toks[b].data) {
        return Err(fault_at(toks, b));
    }
    proof {
        lemma_number_grows(toks@, i as int, i as int, a as int);
    }
    match (n, m) {
        (Some(n), Some(m)) => {
            if n <= m {
                Ok((n, m, b + 1))
            } else {
                Err(Error::ParseError)
            }
        },
        _ => Err(Error::ParseError),
    }
}

fn atom(toks: &Vec<Token>, i: usize) -> (r: Result<(Ast, usize), Error>)
    ensures
        agrees(r, parse_atom(toks@, i as int)),
        advances(r, i, toks.len()),
    decreases toks.len() - i, 1int,
{
    if i >= toks.len() {
        return Err(Error::ParseError);
    }
    let t = toks[i].data;
    match t {
        Tok::Char { c, escaped } => {
            if is_open_brace(t) || is_close_brace(t) {
                Err(Error::ParseError)
            } else if c == '#' && !escaped {
                Ok((Ast::digit(), i + 1))
            } else if (c == '\t' || c == '\n') && !escaped {
                Ok((Ast::space(), i + 1))
            } else {
                Ok((Ast::char(c), i + 1))
            }
        },
        Tok::Digit => Ok((Ast::digit(), i + 1)),
        Tok::Space => Ok((Ast::space(), i + 1)),
        Tok::Exclam => Ok((Ast::char('!'), i + 1)),
        Tok::LParen => {
            let marked = i + 1 < toks.len() && match toks[i + 1].data {
                Tok::Exclam => true,
                _ => false,
            };
            let from = if marked {
                i + 2
            } else {
                i + 1
            };
            match alt(toks, from) {
                Err(e) => Err(e),
                Ok((inner, j)) => {
                    let closed = j < toks.len() && match toks[j].data {
                        Tok::RParen => true,
                        _ => false,
                    };
                    if closed {
                        if marked {
                            Ok((Ast::case_sensitive(inner), j + 1))
                        } else {
                            Ok((inner, j + 1))
                        }
                    } else {
                        Err(fault_at(toks, j))
                    }
                },
            }
        },
        Tok::Error(e) => Err(e),
        _ => Err(Error::ParseError),
    }
}

fn postfix(toks: &Vec<Token>, i: usize) -> (r: Result<(Ast, usize), Error>)
    ensures
        agrees(r, parse_postfix(toks@, i as int)),
        advances(r, i, toks.len()),
    decreases toks.len() - i, 3int,
{
    if i >= toks.len() {
        return Err(Error::ParseError);
    }
    let (mut inner, mut j) = match atom(toks, i) {
        Err(e) => {
            return Err(e);
        },
        Ok(found) => found,
    };
    while j < toks.len()
        invariant
            i < j <= toks.len(),
            inner@.normal(),
            parse_postfix(toks@, i as int) == quant_rest(toks@, inner@, j as int),
        ensures
            quant_rest(toks@, inner@, j as int) == Ok::<(Syntax, int), Error>((inner@, j as int)),
        decreases toks.len() - j,
    {
        let t = toks[j].data;
        match t {
            Tok::QMark => {
                inner = Ast::optional(inner);
                j += 1;
            },
            Tok::Star => {
                inner = Ast::zero_or_more(inner);
                j += 1;
            },
            Tok::Plus => {
                inner = Ast::one_or_more(inner);
                j += 1;
            },
            _ => {
                if !is_open_brace(t) {
                    break ;
                }
                match count(toks, j + 1) {
                    Err(e) => {
                        return Err(e);
                    },
                    Ok((min, max, k)) => {
                        inner = Ast::quantifier_range(inner, min, max);
                        j = k;
                    },
                }
            },
        }
    }
    Ok((inner, j))
}

fn seq(toks: &Vec<Token>, i: usize) -> (r: Result<(Ast, usize), Error>)
    ensures
        agrees(r, parse_seq(toks@, i as int)),
        advances(r, i, toks.len()),
    decreases toks.len() - i, 5int,
{
    if i >= toks.len() {
        return Err(Error::ParseError);
    }
    let (mut lhs, mut j) = match postfix(toks, i) {
        Err(e) => {
            return Err(e);
        },
        Ok(found) => found,
    };
    while j < toks.len() && can_start_atom(toks[j].data)
        invariant
            i < j <= toks.len(),
            lhs@.normal(),
            parse_seq(toks@, i as int) == seq_rest(toks@, lhs@, j as int),
        decreases toks.len() - j,
    {
        match postfix(toks, j) {
            Err(e) => {
                return Err(e);
            },
            Ok((rhs, k)) => {
                proof {
                    lemma_concat_normal(lhs@, rhs@);
                }
                lhs = Ast::concat(lhs, rhs);
                j = k;
            },
        }
    }
    Ok((lhs, j))
}

fn alt(toks: &Vec<Token>, i: usize) -> (r: Result<(Ast, usize), Error>)
    ensures
        agrees(r, parse_alt(toks@, i as int)),
        advances(r, i, toks.len()),
    decreases toks.len() - i, 7int,
{
    if i >= toks.len() {
        return Err(Error::ParseError);
    }
    let (mut lhs, mut j) = match seq(toks, i) {
        Err(e) => {
            return Err(e);
        },
        Ok(found) => found,
    };
    while j < toks.len() && is_or(toks[j].data)
        invariant
            i < j <= toks.len(),
            lhs@.normal(),
            parse_alt(toks@, i as int) == alt_rest(toks@, lhs@, j as int),
        decreases toks.len() - j,
    {
        match seq(toks, j + 1) {
            Err(e) => {
                return Err(e);
            },
            Ok((rhs, k)) => {
                proof {
                    lemma_or_normal(lhs@, rhs@);
                }
                lhs = Ast::or(lhs, rhs);
                j = k;
            },
        }
    }
    Ok((lhs, j))
}

fn is_or(t: Tok) -> (r: bool)
    ensures
        r == (t == Tok::Or),
{
    match t {
        Tok::Or => true,
        _ => false,
    }
}

/// Parses a whole token sequence.
pub fn parse(toks: &Vec<Token>) -> (r: Result<Ast, Error>)
    ensures
        match parse_tokens(toks@) {
            Ok(tree) => r is Ok && r->Ok_0@ == tree,
            Err(e) => r == Err::<Ast, Error>(e),
        },
        r is Ok ==> r->Ok_0@.normal(),
{
    match alt(toks, 0) {
        Err(e) => Err(e),
        Ok((tree, j)) => {
            if j == toks.len() {
                Ok(tree)
            } else {
                Err(fault_at(toks, j))
            }
        },
    }
}

} // verus!
