//! The pattern language: tokens, grammar, syntax tree and lowering.

use vstd::prelude::*;
use vstd::utf8::encode_scalar;

pub mod ast;
pub mod grammar;
pub mod lexer;
pub mod transpile;

use ast::{lemma_views, views, Ast, Syntax};
use lexer::{lex, Lexer};

verus! {

/// An error raised while parsing a pattern.
#[derive(Debug, Clone, Copy, PartialEq, Eq)]
pub enum Error {
    /// The pattern violates the grammar, or no automaton can be built from it.
    ParseError,
    /// The pattern ends in a lone backslash.
    DanglingEscape,
    /// A backslash stands before a character that needs no escape.
    UnnecessaryEscape,
}

/// The tree that a pattern writes, or the first error in it.
pub open spec fn parse_pattern(code: Seq<char>) -> Result<Syntax, Error> {
    grammar::parse_tokens(lex(code, 0))
}

/// The sum of two bounds; `None` stands for "unbounded".
pub open spec fn bound_add(a: Option<nat>, b: Option<nat>) -> Option<nat> {
    match (a, b) {
        (Some(x), Some(y)) => Some(x + y),
        _ => None,
    }
}

/// The larger of two bounds.
pub open spec fn bound_max(a: Option<nat>, b: Option<nat>) -> Option<nat> {
    match (a, b) {
        (Some(x), Some(y)) => Some(if x >= y {
            x
        } else {
            y
        }),
        _ => None,
    }
}

/// A bound repeated at most `n` times.
pub open spec fn bound_times(a: Option<nat>, n: nat) -> Option<nat> {
    if n == 0 {
        Some(0)
    } else {
        match a {
            Some(x) => Some(x * n),
            None => None,
        }
    }
}

/// A bound repeated without limit.
pub open spec fn bound_star(a: Option<nat>) -> Option<nat> {
    if a == Some(0nat) {
        Some(0)
    } else {
        None
    }
}

/// A bound as a machine number: itself where it fits, `usize::MAX` where it
/// does not or where there is none.
pub open spec fn bound_limit(a: Option<nat>) -> usize {
    match a {
        Some(x) => if x <= usize::MAX {
            x as usize
        } else {
            usize::MAX
        },
        None => usize::MAX,
    }
}

impl Syntax {
    /// An upper bound on the number of bytes that one match of the tree can
    /// cover, counting one byte for a digit and for a space; `None` where the
    /// tree can repeat without limit.
    pub open spec fn max_bytes(self) -> Option<nat>
        decreases self,
    {
        match self {
            Syntax::Char(c) => Some(encode_scalar(c as u32).len()),
            Syntax::Digit => Some(1),
            Syntax::Space => Some(1),
            Syntax::CS(inner) => inner.max_bytes(),
            Syntax::Optional(inner) => inner.max_bytes(),
            Syntax::ZeroOrMore(inner) => bound_star(inner.max_bytes()),
            Syntax::OneOrMore(inner) => bound_star(inner.max_bytes()),
            Syntax::Quantifier(inner, _, max) => bound_times(inner.max_bytes(), max as nat),
            Syntax::Or(items) => Syntax::longest(items),
            Syntax::Concat(items) => Syntax::total(items),
        }
    }

    /// The largest bound among `items`; zero for none.
    pub open spec fn longest(items: Seq<Syntax>) -> Option<nat>
        decreases items,
    {
        if items.len() == 0 {
            Some(0)
        } else {
            bound_max(Syntax::longest(items.drop_last()), items.last().max_bytes())
        }
    }

    /// The sum of the bounds of `items`.
    pub open spec fn total(items: Seq<Syntax>) -> Option<nat>
        decreases items,
    {
        if items.len() == 0 {
            Some(0)
        } else {
            bound_add(Syntax::total(items.drop_last()), items.last().max_bytes())
        }
    }
}

/// Multiplying with saturation agrees with `bound_times`.
proof fn lemma_limit_times(a: Option<nat>, n: u32)
    ensures
        bound_limit(bound_times(a, n as nat)) == (if bound_limit(a) * n > usize::MAX {
            usize::MAX
        } else {
            (bound_limit(a) * n) as usize
        }),
{
    let l = bound_limit(a) as int;
    let m = n as int;
    if n == 0 {
        assert(l * m == 0) by (nonlinear_arith)
            requires
                m == 0,
        ;
    } else {
        match a {
            Some(x) => {
                if x > usize::MAX {
                    assert(x * n >= x) by (nonlinear_arith)
                        requires
                            n >= 1,
                    ;
                    assert(l * m >= l) by (nonlinear_arith)
                        requires
                            m >= 1,
                            l >= 0,
                    ;
                }
            },
            None => {
                assert(l * m >= l) by (nonlinear_arith)
                    requires
                        m >= 1,
                        l >= 0,
                ;
            },
        }
    }
}

impl Ast {
    /// Parses a pattern.
    pub fn parse(code: &str) -> (r: Result<Ast, Error>)
        ensures
            match parse_pattern(code@) {
                Ok(tree) => r is Ok && r->Ok_0@ == tree,
                Err(e) => r == Err::<Ast, Error>(e),
            },
            r is Ok ==> r->Ok_0@.normal(),
    {
        let mut lexer = Lexer::new(code);
        let toks = lexer.tokens();
        grammar::parse(&toks)
    }

    /// An upper bound on the number of bytes that one match can cover,
    /// `usize::MAX` standing for every bound that does not fit and for none.
    pub fn max_bytes(&self) -> (r: usize)
        ensures
            r == bound_limit(self@.max_bytes()),
        decreases self,
    {
        match self {
            Ast::Char(c) => c.len_utf8(),
            Ast::Digit => 1,
            Ast::Space => 1,
            Ast::CS(inner) => inner.max_bytes(),
            Ast::Optional(inner) => inner.max_bytes(),
            Ast::ZeroOrMore(inner) => if inner.max_bytes() == 0 {
                0
            } else {
                usize::MAX
            },
            Ast::OneOrMore(inner) => if inner.max_bytes() == 0 {
                0
            } else {
                usize::MAX
            },
            Ast::Quantifier(inner, _, max) => {
                proof {
                    lemma_limit_times(inner@.max_bytes(), *max);
                }
                match inner.max_bytes().checked_mul(*max as usize) {
                    Some(n) => n,
                    None => usize::MAX,
                }
            },
            Ast::Or(items) => Ast::longest_of(items),
            Ast::Concat(items) => Ast::total_of(items),
        }
    }

    fn longest_of(items: &Vec<Ast>) -> (r: usize)
        ensures
            r == bound_limit(Syntax::longest(views(items@))),
        decreases items,
    {
        let mut longest: usize = 0;
        let mut i: usize = 0;
        proof {
            lemma_views(items@);
        }
        while i < items.len()
            invariant
                i <= items.len(),
                views(items@).len() == items.len(),
                forall|j: int| 0 <= j < items.len() ==> #[trigger] views(items@)[j] == items@[j]@,
                longest == bound_limit(Syntax::longest(views(items@).take(i as int))),
            decreases items.len() - i,
        {
            proof {
                let upto = views(items@).take(i + 1);
                assert(upto.drop_last() =~= views(items@).take(i as int));
                assert(upto.last() == views(items@)[i as int]);
            }
            let n = items[i].max_bytes();
            if n > longest {
                longest = n;
            }
            i += 1;
        }
        proof {
            assert(views(items@).take(i as int) =~= views(items@));
        }
        longest
    }

    fn total_of(items: &Vec<Ast>) -> (r: usize)
        ensures
            r == bound_limit(Syntax::total(views(items@))),
        decreases items,
    {
        let mut total: usize = 0;
        let mut i: usize = 0;
        proof {
            lemma_views(items@);
        }
        while i < items.len()
            invariant
                i <= items.len(),
                views(items@).len() == items.len(),
                forall|j: int| 0 <= j < items.len() ==> #[trigger] views(items@)[j] == items@[j]@,
                total == bound_limit(Syntax::total(views(items@).take(i as int))),
            decreases items.len() - i,
        {
            proof {
                let upto = views(items@).take(i + 1);
                assert(upto.drop_last() =~= views(items@).take(i as int));
                assert(upto.last() == views(items@)[i as int]);
            }
            total = total.saturating_add(items[i].max_bytes());
            i += 1;
        }
        proof {
            assert(views(items@).take(i as int) =~= views(items@));
        }
        total
    }
}

} // verus!
