//! The syntax tree of a pattern, its mathematical view, and the constructors
//! that keep it in normal form.

use vstd::prelude::*;

verus! {

/// A pattern represented as a syntax tree.
#[derive(Debug, PartialEq)]
pub enum Ast {
    /// One Unicode scalar value.
    Char(char),
    /// Any decimal digit.
    Digit,
    /// A run of whitespace, taken as one logical space.
    Space,
    /// Concatenation.
    Concat(Vec<Ast>),
    /// Alternation.
    Or(Vec<Ast>),
    /// Zero or one occurrence.
    Optional(Box<Ast>),
    /// A subtree that is matched without case folding.
    CS(Box<Ast>),
    /// Between `min` and `max` occurrences.
    Quantifier(Box<Ast>, u32, u32),
    /// Any number of occurrences.
    ZeroOrMore(Box<Ast>),
    /// At least one occurrence.
    OneOrMore(Box<Ast>),
}

/// The mathematical view of an [`Ast`]: the same tree over sequences.
pub enum Syntax {
    Char(char),
    Digit,
    Space,
    Concat(Seq<Syntax>),
    Or(Seq<Syntax>),
    Optional(Box<Syntax>),
    CS(Box<Syntax>),
    Quantifier(Box<Syntax>, u32, u32),
    ZeroOrMore(Box<Syntax>),
    OneOrMore(Box<Syntax>),
}

/// The views of a sequence of trees, in order.
pub open spec fn views(items: Seq<Ast>) -> Seq<Syntax>
    decreases items,
{
    if items.len() == 0 {
        Seq::empty()
    } else {
        views(items.drop_last()).push(items.last().syntax())
    }
}

impl Ast {
    /// The tree as a mathematical value.
    pub open spec fn syntax(&self) -> Syntax
        decreases self,
    {
        match self {
            Ast::Char(c) => Syntax::Char(*c),
            Ast::Digit => Syntax::Digit,
            Ast::Space => Syntax::Space,
            Ast::Concat(items) => Syntax::Concat(views(items@)),
            Ast::Or(items) => Syntax::Or(views(items@)),
            Ast::Optional(inner) => Syntax::Optional(Box::new(inner.syntax())),
            Ast::CS(inner) => Syntax::CS(Box::new(inner.syntax())),
            Ast::Quantifier(inner, min, max) => Syntax::Quantifier(
                Box::new(inner.syntax()),
                *min,
                *max,
            ),
            Ast::ZeroOrMore(inner) => Syntax::ZeroOrMore(Box::new(inner.syntax())),
            Ast::OneOrMore(inner) => Syntax::OneOrMore(Box::new(inner.syntax())),
        }
    }
}

impl View for Ast {
    type V = Syntax;

    open spec fn view(&self) -> Syntax {
        self.syntax()
    }
}

/// `views` keeps the length and maps each item to its view.
pub proof fn lemma_views(items: Seq<Ast>)
    ensures
        views(items).len() == items.len(),
        forall|i: int| 0 <= i < items.len() ==> #[trigger] views(items)[i] == items[i]@,
    decreases items.len(),
{
    if items.len() > 0 {
        lemma_views(items.drop_last());
    }
}

/// Appending one tree appends its view.
pub proof fn lemma_views_push(items: Seq<Ast>, item: Ast)
    ensures
        views(items.push(item)) == views(items).push(item@),
{
    assert(items.push(item).drop_last() =~= items);
}

impl Syntax {
    /// Whether this tree matches the same with and without case folding:
    /// it holds no character that is not already under a case-sensitive mark.
    pub open spec fn is_cs(self) -> bool
        decreases self,
    {
        match self {
            Syntax::Char(_) => false,
            Syntax::Digit => true,
            Syntax::Space => true,
            Syntax::CS(_) => true,
            Syntax::Optional(inner) => inner.is_cs(),
            Syntax::ZeroOrMore(inner) => inner.is_cs(),
            Syntax::OneOrMore(inner) => inner.is_cs(),
            Syntax::Quantifier(inner, _, _) => inner.is_cs(),
            Syntax::Or(items) => Syntax::all_cs(items),
            Syntax::Concat(items) => Syntax::all_cs(items),
        }
    }

    /// Whether every tree of `items` `is_cs`.
    pub open spec fn all_cs(items: Seq<Syntax>) -> bool
        decreases items,
    {
        items.len() == 0 || (Syntax::all_cs(items.drop_last()) && items.last().is_cs())
    }

    /// A case-sensitive mark around `inner`, left out where it would change nothing.
    pub open spec fn case_sensitive(inner: Syntax) -> Syntax {
        if inner.is_cs() {
            inner
        } else {
            Syntax::CS(Box::new(inner))
        }
    }

    /// `lhs` followed by `rhs`: a sequence is extended, and a space directly
    /// after a space is dropped.
    pub open spec fn concat(lhs: Syntax, rhs: Syntax) -> Syntax {
        match lhs {
            Syntax::Concat(items) => {
                if rhs is Space && items.len() > 0 && items.last() is Space {
                    lhs
                } else {
                    Syntax::Concat(items.push(rhs))
                }
            },
            _ => {
                if lhs is Space && rhs is Space {
                    lhs
                } else {
                    Syntax::Concat(seq![lhs, rhs])
                }
            },
        }
    }

    /// `lhs` or `rhs`: an alternation is extended.
    pub open spec fn or(lhs: Syntax, rhs: Syntax) -> Syntax {
        match lhs {
            Syntax::Or(items) => Syntax::Or(items.push(rhs)),
            _ => Syntax::Or(seq![lhs, rhs]),
        }
    }

    /// Normal form: no sequence holds two spaces side by side, no
    /// case-sensitive mark stands around a tree that `is_cs`, and every
    /// bounded repetition has `min <= max`.
    pub open spec fn normal(self) -> bool
        decreases self,
    {
        match self {
            Syntax::Char(_) => true,
            Syntax::Digit => true,
            Syntax::Space => true,
            Syntax::CS(inner) => !inner.is_cs() && inner.normal(),
            Syntax::Optional(inner) => inner.normal(),
            Syntax::ZeroOrMore(inner) => inner.normal(),
            Syntax::OneOrMore(inner) => inner.normal(),
            Syntax::Quantifier(inner, min, max) => min <= max && inner.normal(),
            Syntax::Or(items) => Syntax::all_normal(items),
            Syntax::Concat(items) => Syntax::all_normal(items) && Syntax::spaces_apart(items),
        }
    }

    /// Whether every tree of `items` is in normal form.
    pub open spec fn all_normal(items: Seq<Syntax>) -> bool
        decreases items,
    {
        items.len() == 0 || (Syntax::all_normal(items.drop_last()) && items.last().normal())
    }

    /// Whether no two neighbours in `items` are both a space.
    pub open spec fn spaces_apart(items: Seq<Syntax>) -> bool {
        forall|i: int| 0 <= i < items.len() - 1 ==> !((#[trigger] items[i]) is Space && items[i + 1] is Space)
    }
}

/// `all_cs` says that each item `is_cs`.
pub proof fn lemma_all_cs(items: Seq<Syntax>)
    ensures
        Syntax::all_cs(items) == (forall|i: int| 0 <= i < items.len() ==> (#[trigger] items[i]).is_cs()),
    decreases items.len(),
{
    if items.len() > 0 {
        lemma_all_cs(items.drop_last());
        if Syntax::all_cs(items) {
            assert forall|i: int| 0 <= i < items.len() implies (#[trigger] items[i]).is_cs() by {
                if i < items.len() - 1 {
                    assert(items.drop_last()[i] == items[i]);
                }
            }
        } else if !items.last().is_cs() {
        } else {
            let j = choose|j: int| 0 <= j < items.len() - 1 && !(#[trigger] items.drop_last()[j]).is_cs();
            assert(items.drop_last()[j] == items[j]);
        }
    }
}

impl Ast {
    pub fn char(c: char) -> (r: Ast)
        ensures
            r@ == Syntax::Char(c),
    {
        Ast::Char(c)
    }

    pub fn digit() -> (r: Ast)
        ensures
            r@ == Syntax::Digit,
    {
        Ast::Digit
    }

    pub fn space() -> (r: Ast)
        ensures
            r@ == Syntax::Space,
    {
        Ast::Space
    }

    /// Whether the tree matches the same with and without case folding.
    pub fn is_cs(&self) -> (r: bool)
        ensures
            r == self@.is_cs(),
        decreases self,
    {
        match self {
            Ast::Char(_) => false,
            Ast::Digit => true,
            Ast::Space => true,
            Ast::CS(_) => true,
            Ast::Optional(inner) => inner.is_cs(),
            Ast::ZeroOrMore(inner) => inner.is_cs(),
            Ast::OneOrMore(inner) => inner.is_cs(),
            Ast::Quantifier(inner, _, _) => inner.is_cs(),
            Ast::Or(items) => Ast::all_cs(items),
            Ast::Concat(items) => Ast::all_cs(items),
        }
    }

    fn all_cs(items: &Vec<Ast>) -> (r: bool)
        ensures
            r == Syntax::all_cs(views(items@)),
        decreases items,
    {
        proof {
            lemma_views(items@);
            lemma_all_cs(views(items@));
        }
        let mut i: usize = 0;
        while i < items.len()
            invariant
                i <= items.len(),
                views(items@).len() == items.len(),
                Syntax::all_cs(views(items@)) == (forall|j: int|
                    0 <= j < views(items@).len() ==> (#[trigger] views(items@)[j]).is_cs()),
                forall|j: int| 0 <= j < i ==> (#[trigger] views(items@)[j]).is_cs(),
                forall|j: int| 0 <= j < items@.len() ==> #[trigger] views(items@)[j] == items@[j]@,
            decreases items.len() - i,
        {
            if !items[i].is_cs() {
                assert(views(items@)[i as int] == items@[i as int]@);
                return false;
            }
            assert(views(items@)[i as int] == items@[i as int]@);
            i += 1;
        }
        true
    }

    /// Marks `inner` as case-sensitive, unless that would change nothing.
    pub fn case_sensitive(inner: Ast) -> (r: Ast)
        ensures
            r@ == Syntax::case_sensitive(inner@),
    {
        if inner.is_cs() {
            inner
        } else {
            Ast::CS(Box::new(inner))
        }
    }

    fn is_space(&self) -> (r: bool)
        ensures
            r == (self@ is Space),
    {
        match self {
            Ast::Space => true,
            _ => false,
        }
    }

    /// `lhs` followed by `rhs`.
    pub fn concat(lhs: Ast, rhs: Ast) -> (r: Ast)
        ensures
            r@ == Syntax::concat(lhs@, rhs@),
    {
        match lhs {
            Ast::Concat(items) => {
                let mut items = items;
                proof {
                    lemma_views(items@);
                    lemma_views_push(items@, rhs);
                }
                if rhs.is_space() && items.len() > 0 && items[items.len() - 1].is_space() {
                } else {
                    items.push(rhs);
                }
                Ast::Concat(items)
            },
            lhs => {
                if lhs.is_space() && rhs.is_space() {
                    lhs
                } else {
                    let ghost pair = seq![lhs, rhs];
                    proof {
                        lemma_views(pair);
                        assert(views(pair) =~= seq![lhs@, rhs@]);
                    }
                    let items = vec![lhs, rhs];
                    Ast::Concat(items)
                }
            },
        }
    }

    /// `lhs` or `rhs`.
    pub fn or(lhs: Ast, rhs: Ast) -> (r: Ast)
        ensures
            r@ == Syntax::or(lhs@, rhs@),
    {
        match lhs {
            Ast::Or(items) => {
                let mut items = items;
                proof {
                    lemma_views_push(items@, rhs);
                }
                items.push(rhs);
                Ast::Or(items)
            },
            lhs => {
                let ghost pair = seq![lhs, rhs];
                proof {
                    lemma_views(pair);
                    assert(views(pair) =~= seq![lhs@, rhs@]);
                }
                let items = vec![lhs, rhs];
                Ast::Or(items)
            },
        }
    }

    pub fn optional(inner: Ast) -> (r: Ast)
        ensures
            r@ == Syntax::Optional(Box::new(inner@)),
    {
        Ast::Optional(Box::new(inner))
    }

    pub fn zero_or_more(inner: Ast) -> (r: Ast)
        ensures
            r@ == Syntax::ZeroOrMore(Box::new(inner@)),
    {
        Ast::ZeroOrMore(Box::new(inner))
    }

    pub fn one_or_more(inner: Ast) -> (r: Ast)
        ensures
            r@ == Syntax::OneOrMore(Box::new(inner@)),
    {
        Ast::OneOrMore(Box::new(inner))
    }

    /// The repetition written `{n}`: exactly `n` occurrences.
    pub fn quantifier_exact(inner: Ast, n: u32) -> (r: Ast)
        ensures
            r@ == Syntax::Quantifier(Box::new(inner@), n, n),
    {
        Ast::Quantifier(Box::new(inner), n, n)
    }

    /// The repetition written `{min,max}`.
    pub fn quantifier_range(inner: Ast, min: u32, max: u32) -> (r: Ast)
        ensures
            r@ == Syntax::Quantifier(Box::new(inner@), min, max),
    {
        Ast::Quantifier(Box::new(inner), min, max)
    }
}


/// Joining two trees in normal form gives a tree in normal form.
pub proof fn lemma_concat_normal(lhs: Syntax, rhs: Syntax)
    requires
        lhs.normal(),
        rhs.normal(),
    ensures
        Syntax::concat(lhs, rhs).normal(),
{
    match lhs {
        Syntax::Concat(items) => {
            if !(rhs is Space && items.len() > 0 && items.last() is Space) {
                let joined = items.push(rhs);
                assert(joined.drop_last() =~= items);
                assert(Syntax::all_normal(joined));
                assert(Syntax::spaces_apart(joined)) by {
                    assert forall|i: int| 0 <= i < joined.len() - 1 implies !((
                    #[trigger] joined[i]) is Space && joined[i + 1] is Space) by {
                        if i < items.len() - 1 {
                            assert(items[i] == joined[i]);
                        }
                    }
                }
            }
        },
        _ => {
            if !(lhs is Space && rhs is Space) {
                let pair = seq![lhs, rhs];
                assert(pair.drop_last() =~= seq![lhs]);
                assert(seq![lhs].drop_last() =~= Seq::<Syntax>::empty());
                assert(Syntax::all_normal(Seq::<Syntax>::empty()));
                assert(Syntax::all_normal(seq![lhs]));
                assert(Syntax::all_normal(pair));
            }
        },
    }
}

/// An alternation of two trees in normal form is in normal form.
pub proof fn lemma_or_normal(lhs: Syntax, rhs: Syntax)
    requires
        lhs.normal(),
        rhs.normal(),
    ensures
        Syntax::or(lhs, rhs).normal(),
{
    match lhs {
        Syntax::Or(items) => {
            let joined = items.push(rhs);
            assert(joined.drop_last() =~= items);
            assert(Syntax::all_normal(joined));
        },
        _ => {
            let pair = seq![lhs, rhs];
            assert(pair.drop_last() =~= seq![lhs]);
            assert(seq![lhs].drop_last() =~= Seq::<Syntax>::empty());
            assert(Syntax::all_normal(Seq::<Syntax>::empty()));
            assert(Syntax::all_normal(seq![lhs]));
            assert(Syntax::all_normal(pair));
        },
    }
}

} // verus!
