//! Lowering a pattern to ordinary regex syntax.
//!
//! The regex is built as a syntax tree of the `regex-syntax` crate and
//! printed by that crate. What the crate prints for each node that is built
//! here is stated on the function that builds it; the lowering is proved
//! against those statements.

use super::ast::{lemma_views, views, Ast, Syntax};
use regex_syntax::ast as re_ast;
use regex_syntax::ast::Ast as Regex;
use vstd::prelude::*;

verus! {

#[verifier::external_type_specification]
#[verifier::external_body]
pub struct ExRegex(Regex);

/// The text that `regex-syntax` prints for a regex syntax tree.
pub uninterp spec fn printed(ast: Regex) -> Seq<char>;

/// The texts of `parts` one after the other.
pub open spec fn printed_concat(parts: Seq<Regex>) -> Seq<char>
    decreases parts.len(),
{
    if parts.len() == 0 {
        Seq::empty()
    } else {
        printed_concat(parts.drop_last()) + printed(parts.last())
    }
}

/// The texts of `parts` with a bar between each two.
pub open spec fn printed_alternatives(parts: Seq<Regex>) -> Seq<char>
    decreases parts.len(),
{
    if parts.len() == 0 {
        Seq::empty()
    } else if parts.len() == 1 {
        printed(parts[0])
    } else {
        printed_alternatives(parts.drop_last()) + seq!['|'] + printed(parts.last())
    }
}

/// The characters that regex syntax gives a meaning of their own.
pub open spec fn is_meta(c: char) -> bool {
    c == '\\' || c == '.' || c == '+' || c == '*' || c == '?' || c == '(' || c == ')' || c == '|'
        || c == '[' || c == ']' || c == '{' || c == '}' || c == '^' || c == '$' || c == '#' || c
        == '&' || c == '-' || c == '~'
}

/// The character for a digit below ten.
pub open spec fn digit_char(d: nat) -> char {
    if d == 0 {
        '0'
    } else if d == 1 {
        '1'
    } else if d == 2 {
        '2'
    } else if d == 3 {
        '3'
    } else if d == 4 {
        '4'
    } else if d == 5 {
        '5'
    } else if d == 6 {
        '6'
    } else if d == 7 {
        '7'
    } else if d == 8 {
        '8'
    } else {
        '9'
    }
}

/// A number in base ten, without leading zeros.
pub open spec fn decimal(n: nat) -> Seq<char>
    decreases n,
{
    if n < 10 {
        seq![digit_char(n)]
    } else {
        decimal(n / 10).push(digit_char(n % 10))
    }
}

/// `regex_syntax::is_meta_character` is true of exactly the characters of `is_meta`.
pub assume_specification[ regex_syntax::is_meta_character ](c: char) -> (r: bool)
    ensures
        r == is_meta(c),
;

/// `Ast::literal` with a literal of kind `Verbatim`: printed as the
/// character itself.
#[verifier::external_body]
fn re_verbatim(c: char) -> (r: Regex)
    ensures
        printed(r) == seq![c],
{
    let span = re_ast::Span::splat(re_ast::Position::new(0, 0, 0));
    Regex::literal(re_ast::Literal { span, kind: re_ast::LiteralKind::Verbatim, c })
}

/// `Ast::literal` with a literal of kind `Meta`: printed as a backslash and
/// the character.
#[verifier::external_body]
fn re_escaped(c: char) -> (r: Regex)
    ensures
        printed(r) == seq!['\\', c],
{
    let span = re_ast::Span::splat(re_ast::Position::new(0, 0, 0));
    Regex::literal(re_ast::Literal { span, kind: re_ast::LiteralKind::Meta, c })
}

/// `Ast::class_perl` with the class of digits, not negated: printed as `\d`.
#[verifier::external_body]
fn re_digit() -> (r: Regex)
    ensures
        printed(r) == seq!['\\', 'd'],
{
    let span = re_ast::Span::splat(re_ast::Position::new(0, 0, 0));
    Regex::class_perl(
        re_ast::ClassPerl { span, kind: re_ast::ClassPerlKind::Digit, negated: false },
    )
}

/// `Ast::class_perl` with the class of whitespace, not negated: printed as
/// `\s`.
#[verifier::external_body]
fn re_whitespace() -> (r: Regex)
    ensures
        printed(r) == seq!['\\', 's'],
{
    let span = re_ast::Span::splat(re_ast::Position::new(0, 0, 0));
    Regex::class_perl(
        re_ast::ClassPerl { span, kind: re_ast::ClassPerlKind::Space, negated: false },
    )
}

/// `Ast::assertion` with the word-boundary assertion: printed as `\b`.
#[verifier::external_body]
fn re_word_boundary() -> (r: Regex)
    ensures
        printed(r) == seq!['\\', 'b'],
{
    let span = re_ast::Span::splat(re_ast::Position::new(0, 0, 0));
    Regex::assertion(re_ast::Assertion { span, kind: re_ast::AssertionKind::WordBoundary })
}

/// `Concat::into_ast`: printed as its parts one after the other, whatever
/// their number.
#[verifier::external_body]
fn re_concat(parts: Vec<Regex>) -> (r: Regex)
    ensures
        printed(r) == printed_concat(parts@),
{
    let span = re_ast::Span::splat(re_ast::Position::new(0, 0, 0));
    re_ast::Concat { span, asts: parts }.into_ast()
}

/// `Ast::alternation`: printed as its parts with a bar between each two.
#[verifier::external_body]
fn re_alternation(parts: Vec<Regex>) -> (r: Regex)
    ensures
        printed(r) == printed_alternatives(parts@),
{
    let span = re_ast::Span::splat(re_ast::Position::new(0, 0, 0));
    Regex::alternation(re_ast::Alternation { span, asts: parts })
}

/// `Ast::group` with a non-capturing group without flags: printed as `(?:`,
/// the inner text, `)`.
#[verifier::external_body]
fn re_group(inner: Regex) -> (r: Regex)
    ensures
        printed(r) == seq!['(', '?', ':'] + printed(inner) + seq![')'],
{
    let span = re_ast::Span::splat(re_ast::Position::new(0, 0, 0));
    let flags = re_ast::Flags { span, items: vec![] };
    Regex::group(
        re_ast::Group { span, kind: re_ast::GroupKind::NonCapturing(flags), ast: Box::new(inner) },
    )
}

/// `Ast::group` with a non-capturing group whose flags are a negation and
/// the case-insensitive flag: printed as `(?-i:`, the inner text, `)`.
#[verifier::external_body]
fn re_group_exact_case(inner: Regex) -> (r: Regex)
    ensures
        printed(r) == seq!['(', '?', '-', 'i', ':'] + printed(inner) + seq![')'],
{
    let span = re_ast::Span::splat(re_ast::Position::new(0, 0, 0));
    let fold = re_ast::FlagsItemKind::Flag(re_ast::Flag::CaseInsensitive);
    let items = vec![
        re_ast::FlagsItem { span, kind: re_ast::FlagsItemKind::Negation },
        re_ast::FlagsItem { span, kind: fold },
    ];
    let kind = re_ast::GroupKind::NonCapturing(re_ast::Flags { span, items });
    Regex::group(re_ast::Group { span, kind, ast: Box::new(inner) })
}

/// `Ast::group` with a non-capturing group whose flags are the multi-line
/// and the case-insensitive flag: printed as `(?mi:`, the inner text, `)`.
#[verifier::external_body]
fn re_group_fold_case(inner: Regex) -> (r: Regex)
    ensures
        printed(r) == seq!['(', '?', 'm', 'i', ':'] + printed(inner) + seq![')'],
{
    let span = re_ast::Span::splat(re_ast::Position::new(0, 0, 0));
    let lines = re_ast::FlagsItemKind::Flag(re_ast::Flag::MultiLine);
    let fold = re_ast::FlagsItemKind::Flag(re_ast::Flag::CaseInsensitive);
    let items = vec![
        re_ast::FlagsItem { span, kind: lines },
        re_ast::FlagsItem { span, kind: fold },
    ];
    let kind = re_ast::GroupKind::NonCapturing(re_ast::Flags { span, items });
    Regex::group(re_ast::Group { span, kind, ast: Box::new(inner) })
}

/// `Ast::repetition` with a greedy zero-or-one repetition: printed as the
/// inner text and `?`.
#[verifier::external_body]
fn re_optional(inner: Regex) -> (r: Regex)
    ensures
        printed(r) == printed(inner) + seq!['?'],
{
    let span = re_ast::Span::splat(re_ast::Position::new(0, 0, 0));
    let op = re_ast::RepetitionOp { span, kind: re_ast::RepetitionKind::ZeroOrOne };
    Regex::repetition(re_ast::Repetition { span, op, greedy: true, ast: Box::new(inner) })
}

/// `Ast::repetition` with a greedy zero-or-more repetition: printed as the
/// inner text and `*`.
#[verifier::external_body]
fn re_zero_or_more(inner: Regex) -> (r: Regex)
    ensures
        printed(r) == printed(inner) + seq!['*'],
{
    let span = re_ast::Span::splat(re_ast::Position::new(0, 0, 0));
    let op = re_ast::RepetitionOp { span, kind: re_ast::RepetitionKind::ZeroOrMore };
    Regex::repetition(re_ast::Repetition { span, op, greedy: true, ast: Box::new(inner) })
}

/// `Ast::repetition` with a greedy one-or-more repetition: printed as the
/// inner text and `+`.
#[verifier::external_body]
fn re_one_or_more(inner: Regex) -> (r: Regex)
    ensures
        printed(r) == printed(inner) + seq!['+'],
{
    let span = re_ast::Span::splat(re_ast::Position::new(0, 0, 0));
    let op = re_ast::RepetitionOp { span, kind: re_ast::RepetitionKind::OneOrMore };
    Regex::repetition(re_ast::Repetition { span, op, greedy: true, ast: Box::new(inner) })
}

/// `Ast::repetition` with a greedy bounded range: printed as the inner text
/// and `{min,max}`, the numbers in base ten.
#[verifier::external_body]
fn re_bounded(inner: Regex, min: u32, max: u32) -> (r: Regex)
    ensures
        printed(r) == printed(inner) + seq!['{'] + decimal(min as nat) + seq![','] + decimal(
            max as nat,
        ) + seq!['}'],
{
    let span = re_ast::Span::splat(re_ast::Position::new(0, 0, 0));
    let range = re_ast::RepetitionRange::Bounded(min, max);
    let op = re_ast::RepetitionOp { span, kind: re_ast::RepetitionKind::Range(range) };
    Regex::repetition(re_ast::Repetition { span, op, greedy: true, ast: Box::new(inner) })
}

/// `ToString::to_string` of a regex syntax tree, which prints it.
#[verifier::external_body]
fn re_print(ast: &Regex) -> (r: String)
    ensures
        r@ == printed(*ast),
{
    ast.to_string()
}

/// How a tree is quantified in a repetition.
pub enum Repeat {
    Optional,
    ZeroOrMore,
    OneOrMore,
    Bounded(u32, u32),
}

impl Repeat {
    /// The operator's text.
    pub open spec fn text(self) -> Seq<char> {
        match self {
            Repeat::Optional => seq!['?'],
            Repeat::ZeroOrMore => seq!['*'],
            Repeat::OneOrMore => seq!['+'],
            Repeat::Bounded(min, max) => seq!['{'] + decimal(min as nat) + seq![','] + decimal(
                max as nat,
            ) + seq!['}'],
        }
    }
}

impl Syntax {
    /// Whether a repetition operator applies to the tree's text without a
    /// group around it: the text is one character, one class or one group.
    pub open spec fn atomic(self, blanks: bool) -> bool {
        self is Digit || self is Char || self is CS || (self is Space && !blanks)
    }

    /// The regex text of the tree.
    ///
    /// `exact` says that case folding is already off around the tree;
    /// `grouped` that the tree's text stands directly inside a group;
    /// `blanks` that a space is written as `\s+` rather than as one space.
    pub open spec fn regex(self, exact: bool, grouped: bool, blanks: bool) -> Seq<char>
        decreases self, 1int,
    {
        match self {
            Syntax::Char(c) => if is_meta(c) {
                seq!['\\', c]
            } else {
                seq![c]
            },
            Syntax::Digit => seq!['\\', 'd'],
            Syntax::Space => if blanks {
                seq!['\\', 's', '+']
            } else {
                seq![' ']
            },
            Syntax::Concat(items) => Syntax::regex_concat(items, exact, blanks),
            Syntax::Or(items) => {
                let body = Syntax::regex_alternatives(items, exact, blanks);
                if grouped {
                    body
                } else {
                    seq!['(', '?', ':'] + body + seq![')']
                }
            },
            Syntax::Optional(inner) => inner.regex_repeated(exact, blanks) + seq!['?'],
            Syntax::ZeroOrMore(inner) => inner.regex_repeated(exact, blanks) + seq!['*'],
            Syntax::OneOrMore(inner) => inner.regex_repeated(exact, blanks) + seq!['+'],
            Syntax::Quantifier(inner, min, max) => inner.regex_repeated(exact, blanks)
                + Repeat::Bounded(min, max).text(),
            Syntax::CS(inner) => (if exact {
                seq!['(', '?', ':']
            } else {
                seq!['(', '?', '-', 'i', ':']
            }) + inner.regex(true, true, blanks) + seq![')'],
        }
    }

    /// The text of a tree that a repetition operator follows: as it is where
    /// the tree is atomic, in a group otherwise.
    pub open spec fn regex_repeated(self, exact: bool, blanks: bool) -> Seq<char>
        decreases self, 2int,
    {
        if self.atomic(blanks) {
            self.regex(exact, false, blanks)
        } else {
            seq!['(', '?', ':'] + self.regex(exact, true, blanks) + seq![')']
        }
    }

    /// The texts of `items` one after the other.
    pub open spec fn regex_concat(items: Seq<Syntax>, exact: bool, blanks: bool) -> Seq<char>
        decreases items, 0int,
    {
        if items.len() == 0 {
            Seq::empty()
        } else {
            Syntax::regex_concat(items.drop_last(), exact, blanks) + items.last().regex(
                exact,
                false,
                blanks,
            )
        }
    }

    /// The texts of `items` with a bar between each two.
    pub open spec fn regex_alternatives(items: Seq<Syntax>, exact: bool, blanks: bool) -> Seq<
        char,
    >
        decreases items, 0int,
    {
        if items.len() == 0 {
            Seq::empty()
        } else if items.len() == 1 {
            items[0].regex(exact, false, blanks)
        } else {
            Syntax::regex_alternatives(items.drop_last(), exact, blanks) + seq!['|']
                + items.last().regex(exact, false, blanks)
        }
    }

    /// The regex for use on its own: between word boundaries, case folded,
    /// a space written as `\s+`.
    pub open spec fn to_regex(self) -> Seq<char> {
        seq!['\\', 'b'] + (seq!['(', '?', 'm', 'i', ':'] + self.regex(false, true, true) + seq![
            ')',
        ]) + seq!['\\', 'b']
    }

    /// The regex that the stream searcher compiles: no word boundaries, a
    /// space written as one space.
    pub open spec fn to_regex_internal(self) -> Seq<char> {
        seq!['(', '?', 'm', 'i', ':'] + self.regex(false, true, false) + seq![')']
    }
}

impl Ast {
    fn repetition(&self, kind: Repeat, exact: bool, blanks: bool) -> (r: Regex)
        ensures
            printed(r) == self@.regex_repeated(exact, blanks) + kind.text(),
        decreases self, 2int,
    {
        let atomic = match self {
            Ast::Digit | Ast::Char(_) | Ast::CS(_) => true,
            Ast::Space => !blanks,
            _ => false,
        };
        let inner = if atomic {
            self.to_regex_ast_inner(exact, false, blanks)
        } else {
            re_group(self.to_regex_ast_inner(exact, true, blanks))
        };
        match kind {
            Repeat::Optional => re_optional(inner),
            Repeat::ZeroOrMore => re_zero_or_more(inner),
            Repeat::OneOrMore => re_one_or_more(inner),
            Repeat::Bounded(min, max) => re_bounded(inner, min, max),
        }
    }

    fn lower_each(items: &Vec<Ast>, exact: bool, blanks: bool) -> (r: Vec<Regex>)
        ensures
            printed_concat(r@) == Syntax::regex_concat(views(items@), exact, blanks),
            printed_alternatives(r@) == Syntax::regex_alternatives(views(items@), exact, blanks),
        decreases items, 0int,
    {
        let mut parts: Vec<Regex> = Vec::new();
        let mut i: usize = 0;
        proof {
            lemma_views(items@);
        }
        while i < items.len()
            invariant
                i <= items.len(),
                parts@.len() == i,
                views(items@).len() == items.len(),
                forall|j: int| 0 <= j < items.len() ==> #[trigger] views(items@)[j] == items@[j]@,
                printed_concat(parts@) == Syntax::regex_concat(
                    views(items@).take(i as int),
                    exact,
                    blanks,
                ),
                printed_alternatives(parts@) == Syntax::regex_alternatives(
                    views(items@).take(i as int),
                    exact,
                    blanks,
                ),
            decreases items.len() - i,
        {
            let part = items[i].to_regex_ast_inner(exact, false, blanks);
            proof {
                let upto = views(items@).take(i + 1);
                assert(upto.drop_last() =~= views(items@).take(i as int));
                assert(upto.last() == views(items@)[i as int]);
                assert(parts@.push(part).drop_last() =~= parts@);
                if i == 0 {
                    assert(upto[0] == upto.last());
                }
            }
            parts.push(part);
            i += 1;
        }
        proof {
            assert(views(items@).take(i as int) =~= views(items@));
        }
        parts
    }

    fn to_regex_ast_inner(&self, exact: bool, grouped: bool, blanks: bool) -> (r: Regex)
        ensures
            printed(r) == self@.regex(exact, grouped, blanks),
        decreases self, 1int,
    {
        match self {
            Ast::Char(c) => {
                if regex_syntax::is_meta_character(*c) {
                    re_escaped(*c)
                } else {
                    re_verbatim(*c)
                }
            },
            Ast::Concat(items) => re_concat(Ast::lower_each(items, exact, blanks)),
            Ast::Digit => re_digit(),
            Ast::Space => {
                if blanks {
                    re_one_or_more(re_whitespace())
                } else {
                    re_verbatim(' ')
                }
            },
            Ast::Optional(inner) => inner.repetition(Repeat::Optional, exact, blanks),
            Ast::ZeroOrMore(inner) => inner.repetition(Repeat::ZeroOrMore, exact, blanks),
            Ast::OneOrMore(inner) => inner.repetition(Repeat::OneOrMore, exact, blanks),
            Ast::Or(items) => {
                let alternation = re_alternation(Ast::lower_each(items, exact, blanks));
                if grouped {
                    alternation
                } else {
                    re_group(alternation)
                }
            },
            Ast::CS(inner) => {
                let lowered = inner.to_regex_ast_inner(true, true, blanks);
                if exact {
                    re_group(lowered)
                } else {
                    re_group_exact_case(lowered)
                }
            },
            Ast::Quantifier(inner, min, max) => inner.repetition(
                Repeat::Bounded(*min, *max),
                exact,
                blanks,
            ),
        }
    }

    /// The pattern as a regex syntax tree, for use on its own.
    pub fn to_regex_ast(&self) -> (r: Regex)
        ensures
            printed(r) == self@.to_regex(),
    {
        let mut parts: Vec<Regex> = Vec::new();
        parts.push(re_word_boundary());
        parts.push(re_group_fold_case(self.to_regex_ast_inner(false, true, true)));
        parts.push(re_word_boundary());
        proof {
            let a = parts@[0];
            let b = parts@[1];
            let c = parts@[2];
            assert(parts@.drop_last() =~= seq![a, b]);
            assert(seq![a, b].drop_last() =~= seq![a]);
            assert(seq![a].drop_last() =~= Seq::<Regex>::empty());
            assert(printed_concat(Seq::<Regex>::empty()) =~= Seq::<char>::empty());
            assert(printed_concat(seq![a]) =~= printed(a));
            assert(printed_concat(seq![a, b]) =~= printed(a) + printed(b));
            assert(printed_concat(parts@) =~= printed(a) + printed(b) + printed(c));
        }
        re_concat(parts)
    }

    /// The pattern in ordinary regex syntax, for use on its own.
    pub fn to_regex(&self) -> (r: String)
        ensures
            r@ == self@.to_regex(),
    {
        re_print(&self.to_regex_ast())
    }

    /// The regex syntax tree that the stream searcher compiles.
    pub fn to_regex_ast_internal(&self) -> (r: Regex)
        ensures
            printed(r) == self@.to_regex_internal(),
    {
        re_group_fold_case(self.to_regex_ast_inner(false, true, false))
    }

    /// The regex text that the stream searcher compiles.
    pub fn to_regex_internal(&self) -> (r: String)
        ensures
            r@ == self@.to_regex_internal(),
    {
        re_print(&self.to_regex_ast_internal())
    }
}

} // verus!
