//! A friendly regular expression dialect for text analytics.
//!
//! Patterns are written in a small dialect made for natural-language queries,
//! parsed to an [`Ast`], lowered to ordinary regex syntax and compiled into one
//! automaton that a [`Search`] drives over text arriving in chunks.

use vstd::prelude::*;
use vstd::string::StringSliceAdditionalSpecFns;

pub mod encoding;
pub mod parser;
pub mod search;

pub use parser::ast::{Ast, Syntax};
pub use parser::{parse_pattern, Error};
pub use search::stream::{SearchStreamError, StreamSearch};
pub use search::{Match, Search};

use parser::ast::{lemma_views, views};
use search::automaton::{compiled, compiles};
use search::model::{chunk_start, feed, fresh, pending, take_text};
use search::sound::{
    all_genuine, genuine, law_feed_is_sound, law_idle_is_sound, law_pending_is_genuine,
    lemma_offset_grows, matches_between, offset,
};
use search::text::{
    join, lemma_piece_boundary, lemma_pieces_total, segments, substring, word_bounds,
};
use search::{bounds, internal_texts};

verus! {

/// A single compiled pattern, for searching whole strings.
#[derive(Clone)]
pub struct Pattern {
    s: Search,
}

/// The spans of `matches`, in order.
pub open spec fn spans(matches: Seq<Match>) -> Seq<(usize, usize)> {
    Seq::new(matches.len(), |i: int| matches[i].span)
}

/// The matches of a whole haystack, searched by a searcher that has consumed
/// nothing: those that complete while the haystack is consumed, then those
/// still pending at its end.
pub open spec fn matches_in(search: Search, haystack: Seq<char>) -> Seq<Match> {
    let (end, found) = take_text(search.automaton(), search.max_lens(), fresh(), haystack);
    found + pending(end.words)
}

/// Whether `part` is what the span cuts out of `bytes`.
pub open spec fn cut_out(bytes: Seq<u8>, span: (usize, usize), part: Seq<u8>) -> bool {
    span.0 <= span.1 <= bytes.len() && part == bytes.subrange(span.0 as int, span.1 as int)
}

impl Pattern {
    /// The searcher that holds the compiled pattern.
    pub closed spec fn search(&self) -> Search {
        self.s
    }

    /// The searcher is valid and has consumed nothing.
    pub open spec fn wf(&self) -> bool {
        self.search().wf() && self.search()@ == fresh()
    }

    /// Compiles one pattern.
    pub fn new(code: &str) -> (r: Result<Pattern, Error>)
        ensures
            match parse_pattern(code@) {
                Err(e) => r matches Err(f) && f == e,
                Ok(tree) => match r {
                    Ok(pattern) => pattern.wf() && Some(pattern.search().automaton())
                        == compiled(internal_texts(seq![tree])) && pattern.search().max_lens()
                        == bounds(seq![tree]),
                    Err(e) => e == Error::ParseError && !compiles(internal_texts(seq![tree])),
                },
            },
    {
        let ast = match Ast::parse(code) {
            Ok(ast) => ast,
            Err(e) => {
                return Err(e);
            },
        };
        let mut trees: Vec<Ast> = Vec::new();
        trees.push(ast);
        proof {
            lemma_views(trees@);
            assert(views(trees@) =~= seq![trees@[0]@]);
        }
        match Search::new(trees.as_slice()) {
            Ok(s) => Ok(Pattern { s }),
            Err(e) => Err(e),
        }
    }

    /// All matching byte spans of `haystack`. Each of them covers whole
    /// segments of the haystack that the pattern matches.
    pub fn findall(&mut self, haystack: &str) -> (r: Vec<(usize, usize)>)
        requires
            old(self).wf(),
        ensures
            final(self).wf(),
            final(self).search().same_patterns(&old(self).search()),
            r@ == spans(matches_in(old(self).search(), haystack@)),
            all_genuine(
                old(self).search().automaton(),
                segments(haystack@),
                matches_in(old(self).search(), haystack@),
            ),
            forall|k: int|
                0 <= k < r@.len() ==> (#[trigger] r@[k]).0 < r@[k].1 <= haystack.spec_bytes().len(),
            join(word_bounds(haystack@)) == haystack@,
            forall|i: int|
                0 <= i < word_bounds(haystack@).len() ==> (#[trigger] word_bounds(
                    haystack@,
                )[i]).len() > 0,
    {
        let size = haystack.as_bytes().len();
        assert(size == haystack.spec_bytes().len());
        let ghost dfa = self.s.automaton();
        let ghost lens = self.s.max_lens();
        let ghost begin = self.s@;
        let ghost segs = segments(haystack@);
        let found = self.s.next(haystack);
        proof {
            let none = Seq::<Seq<u8>>::empty();
            assert(none + segs =~= segs);
            assert(chunk_start(begin, haystack@) == begin);
            lemma_pieces_total(word_bounds(haystack@));
            law_idle_is_sound(dfa, begin);
            law_feed_is_sound(dfa, lens, none, begin, segs);
            let plain = feed(dfa, lens, begin, segs).0;
            assert(self.s@.words == plain.words);
            law_pending_is_genuine(dfa, segs, plain);
        }
        let last = self.s.finish();
        self.s.reset();
        let mut res: Vec<(usize, usize)> = Vec::new();
        let ghost all = found@ + last@;
        proof {
            assert forall|k: int| 0 <= k < all.len() implies genuine(dfa, segs, #[trigger] all[k])
                && all[k].span.0 < all[k].span.1 <= size by {
                if k < found@.len() {
                    assert(all[k] == found@[k]);
                } else {
                    assert(all[k] == last@[k - found@.len()]);
                }
            }
        }
        let mut i: usize = 0;
        while i < found.len()
            invariant
                i <= found@.len(),
                all == found@ + last@,
                res@ == spans(all).take(i as int),
            decreases found.len() - i,
        {
            res.push(found[i].span);
            assert(res@ =~= spans(all).take(i + 1));
            i += 1;
        }
        let mut k: usize = 0;
        while k < last.len()
            invariant
                k <= last@.len(),
                all == found@ + last@,
                res@ == spans(all).take(found@.len() + k),
            decreases last.len() - k,
        {
            res.push(last[k].span);
            assert(res@ =~= spans(all).take(found@.len() + k + 1));
            k += 1;
        }
        assert(res@ =~= spans(all));
        assert forall|k: int| 0 <= k < res@.len() implies (#[trigger] res@[k]).0 < res@[k].1
            <= size by {
            assert(res@[k] == all[k].span);
        }
        res
    }

    /// All matching substrings of `haystack`: for each span that `findall`
    /// gives, the text of the haystack within it.
    pub fn findall_str<'a>(&mut self, haystack: &'a str) -> (r: Vec<&'a str>)
        requires
            old(self).wf(),
        ensures
            final(self).wf(),
            final(self).search().same_patterns(&old(self).search()),
            r@.len() == matches_in(old(self).search(), haystack@).len(),
            forall|k: int|
                0 <= k < r@.len() ==> cut_out(
                    haystack.spec_bytes(),
                    matches_in(old(self).search(), haystack@)[k].span,
                    (#[trigger] r@[k]).spec_bytes(),
                ),
    {
        let ghost found = matches_in(self.search(), haystack@);
        let ghost dfa = self.search().automaton();
        let ghost parts = word_bounds(haystack@);
        let spans = self.findall(haystack);
        let mut res: Vec<&'a str> = Vec::new();
        let mut i: usize = 0;
        while i < spans.len()
            invariant
                i <= spans@.len(),
                spans@ == crate::spans(found),
                all_genuine(dfa, segments(haystack@), found),
                parts == word_bounds(haystack@),
                join(parts) == haystack@,
                res@.len() == i,
                forall|k: int|
                    0 <= k < i ==> cut_out(
                        haystack.spec_bytes(),
                        found[k].span,
                        (#[trigger] res@[k]).spec_bytes(),
                    ),
            decreases spans.len() - i,
        {
            proof {
                let m = found[i as int];
                assert(spans@[i as int] == m.span);
                assert(genuine(dfa, segments(haystack@), m));
                let (a, b) = choose|a: int, b: int| #[trigger]
                    matches_between(dfa, segments(haystack@), a, b, m.id) && m.span.0 == offset(
                        segments(haystack@),
                        a,
                    ) && m.span.1 == offset(segments(haystack@), b);
                lemma_piece_boundary(parts, a);
                lemma_piece_boundary(parts, b);
                lemma_offset_grows(segments(haystack@), a, b);
            }
            let ghost before = res@;
            match substring(haystack, spans[i].0, spans[i].1) {
                Some(part) => {
                    res.push(part);
                    proof {
                        assert forall|k: int| 0 <= k < i + 1 implies cut_out(
                            haystack.spec_bytes(),
                            found[k].span,
                            (#[trigger] res@[k]).spec_bytes(),
                        ) by {
                            if k < i {
                                assert(res@[k] == before[k]);
                            }
                        }
                    }
                },
                None => {
                    proof {
                        assert(false);
                    }
                },
            }
            i += 1;
        }
        res
    }
}

} // verus!
