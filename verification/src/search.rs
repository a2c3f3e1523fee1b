//! The multi-pattern stream searcher.

use vstd::prelude::*;
use vstd::string::{StringExecFns, StringSliceAdditionalSpecFns};

pub mod automaton;
pub mod laws;
pub mod model;
pub mod sound;
pub mod stream;
pub mod text;

use crate::encoding::lemma_encode_nonempty;
use crate::parser::ast::{lemma_views, views, Ast, Syntax};
use crate::parser::{bound_limit, parse_pattern, Error};
use automaton::{
    compiled, compiles, dfa_build, dfa_is_dead_state, dfa_is_match_state, dfa_match_len,
    dfa_match_pattern, dfa_next_eoi_state, dfa_next_state, dfa_patterns, dfa_start_state,
    dfa_states, Dfa,
};
use laws::law_pending_one_per_pattern;
use model::{
    accepted, advance, advance_all, chunk_start, dump, feed, fresh, is_blank,
    lemma_find_candidate, lemma_find_match, lemma_merge_all_one, lemma_merge_all_reported,
    lemma_pending_reported, lemma_promote_keeps, lemma_promote_one_match,
    lemma_promote_reported, lemma_upsert_all_one,
    merge_all, one_match_per_pattern, opens, pending, promote, reported, run, step, take_bytes,
    take_text, text_in, upsert_all, valid, word_valid, Candidate, State, Word,
};
use sound::{
    follows, law_pending_is_within, law_take_text_is_sound, lemma_follows_held, within,
};
use stream::{SearchStreamError, StreamSearch};
use text::{
    from_utf8, join, lemma_pieces_total, lemma_total_prefix, pieces, segments,
    split_word_bounds, total_len, word_bounds,
};
use vstd::slice::slice_subrange;
use vstd::utf8::encode_utf8_decode_utf8;

verus! {

/// A match reported by a [`Search`].
#[derive(Debug, Clone, Copy, PartialEq, Eq)]
pub struct Match {
    /// The index of the pattern that matched.
    pub id: usize,
    /// The byte span of the match, counted from the start of the stream.
    pub span: (usize, usize),
}

impl Match {
    pub fn new(id: usize, span: (usize, usize)) -> (r: Match)
        ensures
            r == (Match { id, span }),
    {
        Match { id, span }
    }
}

/// A match attempt in progress, rooted at the start of a segment.
#[derive(Debug, Clone)]
pub struct VisitedWord {
    start: usize,
    ws_folded_start: usize,
    state: usize,
    candidate_ends: Vec<Candidate>,
}

impl View for VisitedWord {
    type V = Word;

    closed spec fn view(&self) -> Word {
        Word {
            start: self.start,
            folded: self.ws_folded_start,
            state: self.state,
            ends: self.candidate_ends@,
        }
    }
}

/// The views of a list of words.
pub open spec fn words(list: Seq<VisitedWord>) -> Seq<Word> {
    Seq::new(list.len(), |i: int| list[i]@)
}

/// The patterns that match if the input ends in `state`.
pub(crate) fn dfa_matches_at(dfa: &Dfa, state: usize) -> (r: Vec<usize>)
    requires
        dfa_states(*dfa).contains(state),
    ensures
        r@ == accepted(*dfa, state),
        forall|i: int| 0 <= i < r@.len() ==> #[trigger] r@[i] < dfa_patterns(*dfa),
{
    let last = dfa_next_eoi_state(dfa, state);
    let mut ids: Vec<usize> = Vec::new();
    if dfa_is_match_state(dfa, last) {
        let n = dfa_match_len(dfa, last);
        let mut i: usize = 0;
        while i < n
            invariant
                i <= n,
                n == accepted(*dfa, state).len(),
                dfa_states(*dfa).contains(last),
                automaton::dfa_accepts(*dfa).contains_key(last),
                accepted(*dfa, state) == automaton::dfa_accepts(*dfa)[last],
                ids@ == accepted(*dfa, state).take(i as int),
                forall|j: int| 0 <= j < ids@.len() ==> #[trigger] ids@[j] < dfa_patterns(*dfa),
            decreases n - i,
        {
            let id = dfa_match_pattern(dfa, last, i);
            ids.push(id);
            assert(ids@ =~= accepted(*dfa, state).take(i + 1));
            i += 1;
        }
        assert(ids@ =~= accepted(*dfa, state));
    }
    ids
}

/// Whether a segment holds nothing but spaces, tabs and newlines.
pub fn word_is_whitespace(word: &str) -> (r: bool)
    ensures
        r == is_blank(word.spec_bytes()),
{
    let bytes = word.as_bytes();
    let mut i: usize = 0;
    while i < bytes.len()
        invariant
            i <= bytes@.len(),
            bytes@ == word.spec_bytes(),
            forall|j: int| 0 <= j < i ==> bytes@[j] == 32 || bytes@[j] == 9 || bytes@[j] == 10,
        decreases bytes.len() - i,
    {
        let b = bytes[i];
        if !(b == 32 || b == 9 || b == 10) {
            return false;
        }
        i += 1;
    }
    true
}

/// Whether two string slices hold the same text.
fn same_text(a: &str, b: &str) -> (r: bool)
    ensures
        r == (a@ == b@),
{
    let x = a.as_bytes();
    let y = b.as_bytes();
    proof {
        encode_utf8_decode_utf8(a@);
        encode_utf8_decode_utf8(b@);
    }
    if x.len() != y.len() {
        return false;
    }
    let mut i: usize = 0;
    while i < x.len()
        invariant
            i <= x@.len(),
            x@.len() == y@.len(),
            x@ == a.spec_bytes(),
            y@ == b.spec_bytes(),
            a@ == b@ ==> x@ == y@,
            forall|j: int| 0 <= j < i ==> x@[j] == y@[j],
        decreases x.len() - i,
    {
        if x[i] != y[i] {
            return false;
        }
        i += 1;
    }
    assert(x@ =~= y@);
    true
}

/// Records that pattern `id` has matched up to `end`.
fn upsert(ends: &mut Vec<Candidate>, id: usize, end: usize)
    ensures
        final(ends)@ == model::upsert(old(ends)@, id, end),
{
    let mut i: usize = 0;
    while i < ends.len()
        invariant
            i <= ends.len(),
            ends@ == old(ends)@,
            forall|j: int| 0 <= j < i ==> (#[trigger] ends@[j]).id != id,
        decreases ends.len() - i,
    {
        if ends[i].id == id {
            proof {
                lemma_find_candidate(ends@, id, i as int);
            }
            ends.set(i, Candidate { id, end });
            return ;
        }
        i += 1;
    }
    proof {
        lemma_find_candidate(ends@, id, i as int);
    }
    ends.push(Candidate { id, end });
}

/// Adds `m` to `out`, leftmost first.
fn merge(out: &mut Vec<Match>, m: Match)
    ensures
        final(out)@ == model::merge(old(out)@, m),
{
    let mut i: usize = 0;
    while i < out.len()
        invariant
            i <= out.len(),
            out@ == old(out)@,
            forall|j: int| 0 <= j < i ==> (#[trigger] out@[j]).id != m.id,
        decreases out.len() - i,
    {
        let already = out[i];
        if already.id == m.id {
            proof {
                lemma_find_match(out@, m.id, i as int);
            }
            let start = if m.span.0 < already.span.0 {
                m.span.0
            } else {
                already.span.0
            };
            out.set(i, Match { id: m.id, span: (start, already.span.1) });
            return ;
        }
        i += 1;
    }
    proof {
        lemma_find_match(out@, m.id, i as int);
    }
    out.push(m);
}

/// Promotes the complete candidates of `ends` into `out` and returns the rest.
fn promote_complete(
    ends: &Vec<Candidate>,
    lens: &Vec<usize>,
    start: usize,
    dist: usize,
    pos: usize,
    out: &mut Vec<Match>,
) -> (kept: Vec<Candidate>)
    requires
        forall|j: int|
            0 <= j < ends@.len() ==> (#[trigger] ends@[j]).id < lens@.len() && start
                < ends@[j].end <= pos,
    ensures
        (kept@, final(out)@) == promote(ends@, lens@, start, dist as int, old(out)@),
        forall|j: int|
            0 <= j < kept@.len() ==> (#[trigger] kept@[j]).id < lens@.len() && start
                < kept@[j].end <= pos,
{
    let mut kept: Vec<Candidate> = Vec::new();
    let mut i: usize = 0;
    while i < ends.len()
        invariant
            i <= ends.len(),
            forall|j: int|
                0 <= j < ends@.len() ==> (#[trigger] ends@[j]).id < lens@.len() && start
                    < ends@[j].end <= pos,
            forall|j: int|
                0 <= j < kept@.len() ==> (#[trigger] kept@[j]).id < lens@.len() && start
                    < kept@[j].end <= pos,
            (kept@, out@) == promote(ends@.take(i as int), lens@, start, dist as int, old(out)@),
        decreases ends.len() - i,
    {
        let c = ends[i];
        proof {
            let upto = ends@.take(i + 1);
            assert(upto.drop_last() =~= ends@.take(i as int));
            assert(upto.last() == c);
        }
        if dist >= lens[c.id] {
            merge(out, Match { id: c.id, span: (start, c.end) });
        } else {
            kept.push(c);
        }
        i += 1;
    }
    proof {
        assert(ends@.take(i as int) =~= ends@);
    }
    kept
}

impl VisitedWord {
    /// A word that starts at `start`, in the automaton's start state; `None`
    /// where the automaton has none.
    pub fn new(start: usize, ws_folded_start: usize, dfa: &Dfa) -> (r: Option<VisitedWord>)
        ensures
            match r {
                Some(word) => automaton::dfa_start(*dfa) is Some && word@ == (Word {
                    start,
                    folded: ws_folded_start,
                    state: automaton::dfa_start(*dfa)->0,
                    ends: Seq::empty(),
                }) && dfa_states(*dfa).contains(word@.state),
                None => automaton::dfa_start(*dfa) is None,
            },
    {
        match dfa_start_state(dfa) {
            Some(state) => Some(
                VisitedWord { start, ws_folded_start, state, candidate_ends: Vec::new() },
            ),
            None => None,
        }
    }

    /// The matches that the word's candidates stand for.
    pub fn dump(&self) -> (r: Vec<Match>)
        ensures
            r@ == dump(self@.start, self@.ends),
    {
        let mut out: Vec<Match> = Vec::new();
        let mut i: usize = 0;
        while i < self.candidate_ends.len()
            invariant
                i <= self.candidate_ends.len(),
                out@ == dump(self@.start, self@.ends).take(i as int),
            decreases self.candidate_ends.len() - i,
        {
            let c = self.candidate_ends[i];
            out.push(Match { id: c.id, span: (self.start, c.end) });
            assert(out@ =~= dump(self@.start, self@.ends).take(i + 1));
            i += 1;
        }
        assert(out@ =~= dump(self@.start, self@.ends));
        out
    }

    /// The word over one segment that ends at `pos`.
    fn advance(
        &self,
        dfa: &Dfa,
        lens: &Vec<usize>,
        seg: &[u8],
        blank: bool,
        pos: usize,
        folded: usize,
        out: &mut Vec<Match>,
    ) -> (r: Option<VisitedWord>)
        requires
            lens@.len() == dfa_patterns(*dfa),
            blank == is_blank(seg@),
            self@.folded <= folded,
            self@.start < pos,
            word_valid(*dfa, lens@, self@, pos, folded),
            reported(old(out)@, lens@.len() as nat, pos),
            one_match_per_pattern(old(out)@),
        ensures
            (
                match r {
                    Some(word) => Some(word@),
                    None => None,
                },
                final(out)@,
            ) == advance(*dfa, lens@, self@, seg@, pos, folded, old(out)@),
            r is Some ==> word_valid(*dfa, lens@, r->0@, pos, folded),
            reported(final(out)@, lens@.len() as nat, pos),
            one_match_per_pattern(final(out)@),
    {
        let mut state = self.state;
        if blank {
            let next = dfa_next_state(dfa, state, 32u8);
            if dfa_is_dead_state(dfa, next) {
                let given = self.dump();
                proof {
                    assert(given@.take(0) =~= Seq::<Match>::empty());
                    assert forall|k: int| 0 <= k < given@.len() implies (#[trigger] given@[k]).id
                        < lens@.len() && given@[k].span.0 < given@[k].span.1 <= pos by {
                        assert(self@.ends[k].id < lens@.len());
                    }
                    lemma_merge_all_reported(out@, given@, lens@.len() as nat, pos);
                    lemma_merge_all_one(out@, given@);
                }
                let mut k: usize = 0;
                while k < given.len()
                    invariant
                        k <= given@.len(),
                        out@ == merge_all(old(out)@, given@.take(k as int)),
                    decreases given.len() - k,
                {
                    proof {
                        let upto = given@.take(k + 1);
                        assert(upto.drop_last() =~= given@.take(k as int));
                        assert(upto.last() == given@[k as int]);
                    }
                    merge(out, given[k]);
                    k += 1;
                }
                proof {
                    assert(given@.take(k as int) =~= given@);
                }
                return None;
            }
            state = next;
        } else {
            let mut i: usize = 0;
            while i < seg.len()
                invariant
                    i <= seg@.len(),
                    dfa_states(*dfa).contains(state),
                    state == run(*dfa, self@.state, seg@.take(i as int)),
                decreases seg.len() - i,
            {
                proof {
                    let upto = seg@.take(i + 1);
                    assert(upto.drop_last() =~= seg@.take(i as int));
                    assert(upto.last() == seg@[i as int]);
                }
                state = dfa_next_state(dfa, state, seg[i]);
                i += 1;
            }
            proof {
                assert(seg@.take(i as int) =~= seg@);
            }
        }
        let ids = dfa_matches_at(dfa, state);
        let mut ends: Vec<Candidate> = Vec::new();
        let mut k: usize = 0;
        while k < self.candidate_ends.len()
            invariant
                k <= self.candidate_ends.len(),
                ends@ == self.candidate_ends@.take(k as int),
            decreases self.candidate_ends.len() - k,
        {
            ends.push(self.candidate_ends[k]);
            assert(ends@ =~= self.candidate_ends@.take(k + 1));
            k += 1;
        }
        assert(ends@ =~= self@.ends);
        let mut j: usize = 0;
        while j < ids.len()
            invariant
                j <= ids.len(),
                lens@.len() == dfa_patterns(*dfa),
                forall|i: int| 0 <= i < ids@.len() ==> #[trigger] ids@[i] < dfa_patterns(*dfa),
                self@.start < pos,
                forall|i: int|
                    0 <= i < ends@.len() ==> (#[trigger] ends@[i]).id < lens@.len()
                        && self@.start < ends@[i].end <= pos,
                ends@ == upsert_all(self@.ends, ids@.take(j as int), pos),
            decreases ids.len() - j,
        {
            proof {
                let upto = ids@.take(j + 1);
                assert(upto.drop_last() =~= ids@.take(j as int));
                assert(upto.last() == ids@[j as int]);
                model::lemma_upsert_within(
                    ends@,
                    ids@[j as int],
                    pos,
                    lens@.len() as int,
                    self@.start,
                    pos,
                );
            }
            upsert(&mut ends, ids[j], pos);
            j += 1;
        }
        proof {
            assert(ids@.take(j as int) =~= ids@);
            lemma_upsert_all_one(self@.ends, ids@, pos);
            lemma_promote_keeps(
                ends@,
                lens@,
                self.start,
                (folded - self.ws_folded_start) as int,
                out@,
            );
            lemma_promote_reported(
                ends@,
                lens@,
                self.start,
                (folded - self.ws_folded_start) as int,
                out@,
                pos,
            );
            lemma_promote_one_match(
                ends@,
                lens@,
                self.start,
                (folded - self.ws_folded_start) as int,
                out@,
            );
        }
        let kept = promote_complete(
            &ends,
            lens,
            self.start,
            folded - self.ws_folded_start,
            pos,
            out,
        );
        if kept.len() == 0 && dfa_is_dead_state(dfa, state) {
            return None;
        }
        Some(
            VisitedWord {
                start: self.start,
                ws_folded_start: self.ws_folded_start,
                state,
                candidate_ends: kept,
            },
        )
    }
}

/// The bytes of an incomplete character at the end of a chunk.
#[derive(Debug, Clone, Copy)]
pub enum Utf8RaggedEdge {
    Zero,
    One(u8),
    Two(u8, u8),
    Three(u8, u8, u8),
}

impl Utf8RaggedEdge {
    /// The bytes held, in order.
    pub open spec fn bytes(self) -> Seq<u8> {
        match self {
            Utf8RaggedEdge::Zero => Seq::empty(),
            Utf8RaggedEdge::One(a) => seq![a],
            Utf8RaggedEdge::Two(a, b) => seq![a, b],
            Utf8RaggedEdge::Three(a, b, c) => seq![a, b, c],
        }
    }
}

impl Utf8RaggedEdge {
    /// The bytes held followed by `bytes`.
    fn followed_by(self, bytes: &[u8]) -> (all: Vec<u8>)
        ensures
            all@ == self.bytes() + bytes@,
    {
        let mut all: Vec<u8> = Vec::new();
        match self {
            Utf8RaggedEdge::Zero => {},
            Utf8RaggedEdge::One(a) => {
                all.push(a);
            },
            Utf8RaggedEdge::Two(a, b) => {
                all.push(a);
                all.push(b);
            },
            Utf8RaggedEdge::Three(a, b, c) => {
                all.push(a);
                all.push(b);
                all.push(c);
            },
        }
        assert(all@ =~= self.bytes());
        let mut i: usize = 0;
        while i < bytes.len()
            invariant
                i <= bytes@.len(),
                all@ == self.bytes() + bytes@.take(i as int),
            decreases bytes.len() - i,
        {
            all.push(bytes[i]);
            assert(all@ =~= self.bytes() + bytes@.take(i + 1));
            i += 1;
        }
        assert(bytes@.take(i as int) =~= bytes@);
        all
    }

    /// The one to three bytes of `all` from `cut` on.
    fn tail(all: &Vec<u8>, cut: usize) -> (edge: Utf8RaggedEdge)
        requires
            cut <= all@.len(),
            1 <= all@.len() - cut <= 3,
        ensures
            edge.bytes() == all@.skip(cut as int),
    {
        let n = all.len();
        let edge = if n - cut == 1 {
            Utf8RaggedEdge::One(all[n - 1])
        } else if n - cut == 2 {
            Utf8RaggedEdge::Two(all[n - 2], all[n - 1])
        } else {
            Utf8RaggedEdge::Three(all[n - 3], all[n - 2], all[n - 1])
        };
        assert(edge.bytes() =~= all@.skip(cut as int));
        edge
    }
}

/// A compiled searcher for several patterns over a stream of text.
#[derive(Debug, Clone)]
pub struct Search {
    dfa: Dfa,
    pos: usize,
    ws_folded_pos: usize,
    last_word_was_ws: bool,
    push_state: bool,
    state: Vec<VisitedWord>,
    pattern_max_lens: Vec<usize>,
    utf8_ragged_edge: Utf8RaggedEdge,
    last_word: String,
}

impl View for Search {
    type V = State;

    closed spec fn view(&self) -> State {
        State {
            pos: self.pos,
            folded: self.ws_folded_pos,
            blank: self.last_word_was_ws,
            armed: self.push_state,
            tail: self.last_word@,
            words: words(self.state@),
            held: self.utf8_ragged_edge.bytes(),
        }
    }
}

/// The regex texts that are compiled for `trees`.
pub open spec fn internal_texts(trees: Seq<Syntax>) -> Seq<Seq<char>> {
    Seq::new(trees.len(), |i: int| trees[i].to_regex_internal())
}

/// The bound of each of `trees` on the bytes of one match.
pub open spec fn bounds(trees: Seq<Syntax>) -> Seq<usize> {
    Seq::new(trees.len(), |i: int| bound_limit(trees[i].max_bytes()))
}

/// The texts of string slices.
pub open spec fn sources(patterns: Seq<&str>) -> Seq<Seq<char>> {
    text::pieces(patterns)
}

/// The index of the first of `codes` that does not parse, or their number
/// where all do.
pub open spec fn first_failure(codes: Seq<Seq<char>>) -> int
    decreases codes.len(),
{
    if codes.len() == 0 {
        0
    } else if parse_pattern(codes[0]) is Err {
        0
    } else {
        1 + first_failure(codes.drop_first())
    }
}

/// The trees that `codes` write, where all of them parse.
pub open spec fn parsed(codes: Seq<Seq<char>>) -> Seq<Syntax> {
    Seq::new(codes.len(), |i: int| parse_pattern(codes[i])->Ok_0)
}

/// `first_failure` gives the first index that does not parse.
pub proof fn lemma_first_failure(codes: Seq<Seq<char>>, i: int)
    requires
        0 <= i <= codes.len(),
        forall|j: int| 0 <= j < i ==> parse_pattern(#[trigger] codes[j]) is Ok,
        i < codes.len() ==> parse_pattern(codes[i]) is Err,
    ensures
        first_failure(codes) == i,
    decreases i,
{
    if i > 0 {
        let rest = codes.drop_first();
        assert forall|j: int| 0 <= j < i - 1 implies parse_pattern(#[trigger] rest[j]) is Ok by {
            assert(rest[j] == codes[j + 1]);
        }
        assert(parse_pattern(codes[0]) is Ok);
        lemma_first_failure(rest, i - 1);
    }
}

impl Search {
    /// The automaton that the searcher drives.
    pub closed spec fn automaton(&self) -> Dfa {
        self.dfa
    }

    /// For each pattern, the bound on the bytes of one match.
    pub closed spec fn max_lens(&self) -> Seq<usize> {
        self.pattern_max_lens@
    }

    /// The searcher's state is one that its automaton allows.
    pub open spec fn wf(&self) -> bool {
        valid(self.automaton(), self.max_lens(), self@)
    }

    /// Whether two searchers run the same automaton with the same bounds.
    pub open spec fn same_patterns(&self, other: &Search) -> bool {
        self.automaton() == other.automaton() && self.max_lens() == other.max_lens()
    }

    /// Parses several patterns and compiles them into one searcher, whose
    /// automaton is the one built from the patterns' regex texts. The first
    /// pattern that does not parse gives its error; patterns from which no
    /// automaton can be built give a parse error.
    pub fn compile(patterns: &[&str]) -> (r: Result<Search, Error>)
        ensures
            match r {
                Ok(search) => {
                    &&& first_failure(sources(patterns@)) == patterns@.len()
                    &&& compiles(internal_texts(parsed(sources(patterns@))))
                    &&& search.wf()
                    &&& search@ == fresh()
                    &&& Some(search.automaton()) == compiled(
                        internal_texts(parsed(sources(patterns@))),
                    )
                    &&& search.max_lens() == bounds(parsed(sources(patterns@)))
                },
                Err(e) => {
                    let i = first_failure(sources(patterns@));
                    if i < patterns@.len() {
                        parse_pattern(sources(patterns@)[i]) == Err::<Syntax, Error>(e)
                    } else {
                        e == Error::ParseError && !compiles(
                            internal_texts(parsed(sources(patterns@))),
                        )
                    }
                },
            },
    {
        let mut trees: Vec<Ast> = Vec::new();
        let mut i: usize = 0;
        while i < patterns.len()
            invariant
                i <= patterns@.len(),
                trees@.len() == i,
                forall|j: int| 0 <= j < i ==> parse_pattern(#[trigger] sources(patterns@)[j]) is Ok,
                forall|j: int|
                    0 <= j < i ==> (#[trigger] trees@[j])@ == parse_pattern(
                        sources(patterns@)[j],
                    )->Ok_0,
            decreases patterns.len() - i,
        {
            match Ast::parse(patterns[i]) {
                Ok(tree) => {
                    trees.push(tree);
                },
                Err(e) => {
                    proof {
                        lemma_first_failure(sources(patterns@), i as int);
                    }
                    return Err(e);
                },
            }
            i += 1;
        }
        proof {
            lemma_first_failure(sources(patterns@), i as int);
            lemma_views(trees@);
            assert(views(trees@) =~= parsed(sources(patterns@)));
        }
        Search::new(trees.as_slice())
    }

    /// Compiles parsed patterns into one searcher; a parse error where no
    /// automaton can be built from them.
    pub fn new(patterns: &[Ast]) -> (r: Result<Search, Error>)
        ensures
            r is Ok == compiles(internal_texts(views(patterns@))),
            match r {
                Ok(search) => {
                    &&& search.wf()
                    &&& search@ == fresh()
                    &&& Some(search.automaton()) == compiled(internal_texts(views(patterns@)))
                    &&& search.max_lens() == bounds(views(patterns@))
                },
                Err(e) => e == Error::ParseError,
            },
    {
        let mut transpiled: Vec<String> = Vec::new();
        let mut lens: Vec<usize> = Vec::new();
        let mut i: usize = 0;
        proof {
            lemma_views(patterns@);
        }
        while i < patterns.len()
            invariant
                i <= patterns@.len(),
                views(patterns@).len() == patterns@.len(),
                forall|j: int|
                    0 <= j < patterns@.len() ==> #[trigger] views(patterns@)[j] == patterns@[j]@,
                transpiled@.len() == i,
                lens@.len() == i,
                automaton::texts(transpiled@) == internal_texts(views(patterns@)).take(i as int),
                lens@ == bounds(views(patterns@)).take(i as int),
            decreases patterns.len() - i,
        {
            let text = patterns[i].to_regex_internal();
            let len = patterns[i].max_bytes();
            let ghost texts_before = transpiled@;
            transpiled.push(text);
            lens.push(len);
            proof {
                let all = internal_texts(views(patterns@));
                assert forall|j: int| 0 <= j < i + 1 implies automaton::texts(transpiled@)[j]
                    == all[j] by {
                    if j < i {
                        assert(automaton::texts(texts_before)[j] == all.take(i as int)[j]);
                        assert(transpiled@[j] == texts_before[j]);
                    } else {
                        assert(views(patterns@)[j] == patterns@[j]@);
                    }
                }
                assert(automaton::texts(transpiled@) =~= internal_texts(views(patterns@)).take(
                    i + 1,
                ));
                assert(lens@ =~= bounds(views(patterns@)).take(i + 1));
            }
            i += 1;
        }
        proof {
            assert(internal_texts(views(patterns@)).take(i as int) =~= internal_texts(
                views(patterns@),
            ));
            assert(bounds(views(patterns@)).take(i as int) =~= bounds(views(patterns@)));
        }
        match dfa_build(&transpiled) {
            None => Err(Error::ParseError),
            Some(dfa) => {
                let search = Search {
                    dfa,
                    pos: 0,
                    ws_folded_pos: 0,
                    last_word_was_ws: false,
                    push_state: true,
                    state: Vec::new(),
                    pattern_max_lens: lens,
                    utf8_ragged_edge: Utf8RaggedEdge::Zero,
                    last_word: String::new(),
                };
                proof {
                    assert(search@.words =~= Seq::<Word>::empty());
                    assert(search@.held =~= Seq::<u8>::empty());
                }
                Ok(search)
            },
        }
    }

    /// The searcher over one segment.
    fn step_word(&mut self, haystack: &str) -> (r: Vec<Match>)
        requires
            old(self).wf(),
            haystack.spec_bytes().len() > 0,
            old(self)@.pos + haystack.spec_bytes().len() <= usize::MAX,
        ensures
            final(self).wf(),
            final(self).same_patterns(old(self)),
            (final(self)@, r@) == step(
                old(self).automaton(),
                old(self).max_lens(),
                old(self)@,
                haystack.spec_bytes(),
            ),
            final(self)@.pos == old(self)@.pos + haystack.spec_bytes().len(),
            reported(r@, old(self).max_lens().len(), final(self)@.pos),
            one_match_per_pattern(r@),
    {
        let mut matches: Vec<Match> = Vec::new();
        let bytes = haystack.as_bytes();
        let last_pos = self.pos;
        let last_ws_folded_pos = self.ws_folded_pos;
        let last_push_state = self.push_state;
        let ghost before = self@;

        self.push_state = true;
        self.pos = self.pos + bytes.len();

        let curr_word_is_whitespace = word_is_whitespace(haystack);
        if curr_word_is_whitespace {
            if self.last_word_was_ws {
                proof {
                    assert(self@.words =~= before.words);
                    assert forall|i: int| 0 <= i < self@.words.len() implies word_valid(
                        self.dfa,
                        self.pattern_max_lens@,
                        #[trigger] self@.words[i],
                        self.pos,
                        self.ws_folded_pos,
                    ) by {
                        assert(word_valid(
                            self.dfa,
                            self.pattern_max_lens@,
                            before.words[i],
                            before.pos,
                            before.folded,
                        ));
                    }
                }
                return matches;
            }
            self.last_word_was_ws = true;
            self.ws_folded_pos = self.ws_folded_pos + 1;
        } else {
            self.last_word_was_ws = false;
            self.ws_folded_pos = self.ws_folded_pos + bytes.len();
        }

        if last_push_state {
            match VisitedWord::new(last_pos, last_ws_folded_pos, &self.dfa) {
                Some(word) => {
                    self.state.push(word);
                },
                None => {},
            }
        }
        let ghost started = words(self.state@);
        proof {
            if before.armed && automaton::dfa_start(self.dfa) is Some {
                assert(started =~= before.words.push(
                    Word {
                        start: before.pos,
                        folded: before.folded,
                        state: automaton::dfa_start(self.dfa)->0,
                        ends: Seq::empty(),
                    },
                ));
            } else {
                assert(started =~= before.words);
            }
            assert forall|i: int| 0 <= i < started.len() implies word_valid(
                self.dfa,
                self.pattern_max_lens@,
                #[trigger] started[i],
                self.pos,
                self.ws_folded_pos,
            ) && started[i].start < self.pos by {
                if i < before.words.len() {
                    assert(started[i] == before.words[i]);
                    assert(word_valid(
                        self.dfa,
                        self.pattern_max_lens@,
                        before.words[i],
                        before.pos,
                        before.folded,
                    ));
                }
            }
        }

        let mut kept: Vec<VisitedWord> = Vec::new();
        let mut i: usize = 0;
        while i < self.state.len()
            invariant
                i <= self.state@.len(),
                started == words(self.state@),
                self.pattern_max_lens@.len() == dfa_patterns(self.dfa),
                curr_word_is_whitespace == is_blank(bytes@),
                forall|j: int|
                    0 <= j < started.len() ==> word_valid(
                        self.dfa,
                        self.pattern_max_lens@,
                        #[trigger] started[j],
                        self.pos,
                        self.ws_folded_pos,
                    ) && started[j].start < self.pos,
                forall|j: int|
                    0 <= j < kept@.len() ==> word_valid(
                        self.dfa,
                        self.pattern_max_lens@,
                        #[trigger] words(kept@)[j],
                        self.pos,
                        self.ws_folded_pos,
                    ),
                reported(matches@, self.pattern_max_lens@.len() as nat, self.pos),
                one_match_per_pattern(matches@),
                (words(kept@), matches@) == advance_all(
                    self.dfa,
                    self.pattern_max_lens@,
                    started.take(i as int),
                    bytes@,
                    self.pos,
                    self.ws_folded_pos,
                ),
            decreases self.state.len() - i,
        {
            proof {
                let upto = started.take(i + 1);
                assert(upto.drop_last() =~= started.take(i as int));
                assert(upto.last() == started[i as int]);
                assert(started[i as int] == self.state@[i as int]@);
            }
            let ghost kept_before = words(kept@);
            match self.state[i].advance(
                &self.dfa,
                &self.pattern_max_lens,
                bytes,
                curr_word_is_whitespace,
                self.pos,
                self.ws_folded_pos,
                &mut matches,
            ) {
                Some(word) => {
                    kept.push(word);
                    proof {
                        assert(words(kept@) =~= kept_before.push(word@));
                        assert forall|j: int| 0 <= j < kept@.len() implies word_valid(
                            self.dfa,
                            self.pattern_max_lens@,
                            #[trigger] words(kept@)[j],
                            self.pos,
                            self.ws_folded_pos,
                        ) by {
                            if j < kept_before.len() {
                                assert(words(kept@)[j] == kept_before[j]);
                            }
                        }
                    }
                },
                None => {},
            }
            i += 1;
        }
        proof {
            assert(started.take(i as int) =~= started);
        }
        self.state = kept;
        matches
    }

    /// Whether a chunk that follows what was consumed begins a piece of its
    /// own.
    fn opens(&self, haystack: &str) -> (r: bool)
        ensures
            r == opens(self@.tail, haystack@),
    {
        if self.last_word.as_str().is_empty() {
            return true;
        }
        let mut joined = self.last_word.clone();
        joined.append(haystack);
        let parts = split_word_bounds(joined.as_str());
        if parts.len() == 0 {
            return false;
        }
        proof {
            assert(pieces(parts@)[0] == parts@[0]@);
        }
        same_text(parts[0], self.last_word.as_str())
    }

    /// The searcher over one chunk of text, whatever is held back.
    fn feed(&mut self, haystack: &str) -> (r: Vec<Match>)
        requires
            old(self).wf(),
            old(self)@.pos + haystack.spec_bytes().len() <= usize::MAX,
        ensures
            final(self).wf(),
            final(self).same_patterns(old(self)),
            (final(self)@, r@) == take_text(
                old(self).automaton(),
                old(self).max_lens(),
                old(self)@,
                haystack@,
            ),
            final(self)@.held == old(self)@.held,
            final(self)@.pos == old(self)@.pos + haystack.spec_bytes().len(),
            reported(r@, old(self).max_lens().len(), final(self)@.pos),
            follows(old(self).automaton(), old(self)@, segments(haystack@), final(self)@, r@),
            join(word_bounds(haystack@)) == haystack@,
            forall|i: int|
                0 <= i < word_bounds(haystack@).len() ==> (#[trigger] word_bounds(
                    haystack@,
                )[i]).len() > 0,
    {
        proof {
            lemma_pieces_total(word_bounds(haystack@));
        }
        self.push_state = self.opens(haystack);
        let ghost begin = self@;
        assert(begin == chunk_start(old(self)@, haystack@));
        let words = split_word_bounds(haystack);
        let ghost segs = segments(haystack@);
        proof {
            lemma_pieces_total(word_bounds(haystack@));
            assert(segs.take(0) =~= Seq::<Seq<u8>>::empty());
            assert forall|i: int| 0 <= i < word_bounds(haystack@).len() implies (
            #[trigger] word_bounds(haystack@)[i]).len() > 0 by {
                assert(pieces(words@)[i] == words@[i]@);
            }
        }
        let mut matches: Vec<Match> = Vec::new();
        let mut i: usize = 0;
        while i < words.len()
            invariant
                i <= words@.len(),
                self.wf(),
                self.same_patterns(old(self)),
                self@.held == old(self)@.held,
                self@.tail == old(self)@.tail,
                pieces(words@) == word_bounds(haystack@),
                segs == segments(haystack@),
                segs.len() == words@.len(),
                forall|j: int| 0 <= j < words@.len() ==> (#[trigger] words@[j])@.len() > 0,
                total_len(segs) == haystack.spec_bytes().len(),
                self@.pos == begin.pos + total_len(segs.take(i as int)),
                begin.pos + haystack.spec_bytes().len() <= usize::MAX,
                reported(matches@, old(self).max_lens().len(), self@.pos),
                (self@, matches@) == feed(
                    old(self).automaton(),
                    old(self).max_lens(),
                    begin,
                    segs.take(i as int),
                ),
            decreases words.len() - i,
        {
            let word = words[i];
            proof {
                let upto = segs.take(i + 1);
                assert(upto.drop_last() =~= segs.take(i as int));
                assert(upto.last() == segs[i as int]);
                assert(pieces(words@)[i as int] == word@);
                assert(segs[i as int] == word.spec_bytes());
                lemma_total_prefix(segs, i + 1);
                lemma_encode_nonempty(word@);
            }
            let ghost found = matches@;
            let mut more = self.step_word(word);
            matches.append(&mut more);
            proof {
                assert forall|k: int| 0 <= k < matches@.len() implies (#[trigger] matches@[k]).id
                    < old(self).max_lens().len() && matches@[k].span.0 < matches@[k].span.1
                    <= self@.pos by {
                    if k < found.len() {
                        assert(matches@[k] == found[k]);
                    }
                }
            }
            i += 1;
        }
        proof {
            assert(segs.take(i as int) =~= segs);
        }
        let ghost end = self@;
        if words.len() > 0 {
            self.last_word = words[words.len() - 1].to_owned();
            proof {
                assert(pieces(words@)[words@.len() - 1] == words@[words@.len() - 1]@);
            }
        }
        proof {
            law_take_text_is_sound(
                old(self).automaton(),
                old(self).max_lens(),
                old(self)@,
                haystack@,
            );
            assert(self@.words == end.words);
            assert forall|i: int| 0 <= i < self@.words.len() implies word_valid(
                self.dfa,
                self.pattern_max_lens@,
                #[trigger] self@.words[i],
                self@.pos,
                self@.folded,
            ) by {
                assert(word_valid(
                    self.dfa,
                    self.pattern_max_lens@,
                    end.words[i],
                    end.pos,
                    end.folded,
                ));
            }
        }
        matches
    }

    /// Steps through a chunk of text and gives the matches that are
    /// complete. The stream must not stand in the middle of a character.
    pub fn next(&mut self, haystack: &str) -> (r: Vec<Match>)
        requires
            old(self).wf(),
            old(self)@.held.len() == 0,
            old(self)@.pos + haystack.spec_bytes().len() <= usize::MAX,
        ensures
            final(self).wf(),
            final(self).same_patterns(old(self)),
            (final(self)@, r@) == take_text(
                old(self).automaton(),
                old(self).max_lens(),
                old(self)@,
                haystack@,
            ),
            final(self)@.held == old(self)@.held,
            final(self)@.pos == old(self)@.pos + haystack.spec_bytes().len(),
            reported(r@, old(self).max_lens().len(), final(self)@.pos),
            follows(old(self).automaton(), old(self)@, segments(haystack@), final(self)@, r@),
            join(word_bounds(haystack@)) == haystack@,
            forall|i: int|
                0 <= i < word_bounds(haystack@).len() ==> (#[trigger] word_bounds(
                    haystack@,
                )[i]).len() > 0,
    {
        self.feed(haystack)
    }

    /// Steps through a chunk of raw bytes and gives the matches that are
    /// complete. An incomplete character at the end of the chunk is held back
    /// and completed by the next chunk; bytes that cannot be text are refused
    /// and leave the searcher as it was.
    pub fn next_bytes(&mut self, haystack: &[u8]) -> (r: Result<Vec<Match>, SearchStreamError>)
        requires
            old(self).wf(),
            old(self)@.pos + old(self)@.held.len() + haystack@.len() <= usize::MAX,
        ensures
            final(self).wf(),
            final(self).same_patterns(old(self)),
            match take_bytes(old(self).automaton(), old(self).max_lens(), old(self)@, haystack@) {
                Some((state, found)) => r is Ok && r->Ok_0@ == found && final(self)@ == state
                    && reported(found, old(self).max_lens().len(), state.pos) && follows(
                    old(self).automaton(),
                    old(self)@,
                    segments(text_in(old(self)@.held, haystack@)),
                    state,
                    found,
                ),
                None => r matches Err(SearchStreamError::Utf8Error) && final(self)@ == old(
                    self,
                )@,
            },
    {
        let all = self.utf8_ragged_edge.followed_by(haystack);
        match from_utf8(all.as_slice()) {
            Ok(text) => {
                proof {
                    encode_utf8_decode_utf8(text@);
                }
                let found = self.feed(text);
                let ghost fed = self@;
                self.utf8_ragged_edge = Utf8RaggedEdge::Zero;
                proof {
                    assert(self@.held =~= Seq::<u8>::empty());
                    lemma_follows_held(self.dfa, old(self)@, segments(text@), fed, self@, found@);
                }
                Ok(found)
            },
            Err(fault) => {
                if fault.error_len.is_some() {
                    return Err(SearchStreamError::Utf8Error);
                }
                let cut = fault.valid_up_to;
                let edge = Utf8RaggedEdge::tail(&all, cut);
                let head = slice_subrange(all.as_slice(), 0, cut);
                assert(head@ =~= all@.take(cut as int));
                match from_utf8(head) {
                    Ok(text) => {
                        proof {
                            encode_utf8_decode_utf8(text@);
                        }
                        let found = self.feed(text);
                        let ghost fed = self@;
                        self.utf8_ragged_edge = edge;
                        proof {
                            lemma_follows_held(
                                self.dfa,
                                old(self)@,
                                segments(text@),
                                fed,
                                self@,
                                found@,
                            );
                        }
                        Ok(found)
                    },
                    Err(_) => {
                        proof {
                            assert(false);
                        }
                        Err(SearchStreamError::Utf8Error)
                    },
                }
            },
        }
    }

    /// Begins the search of a stream that a reader delivers chunk by chunk:
    /// nothing is queued and the end is not seen.
    pub fn iter(&self) -> (r: StreamSearch)
        ensures
            r.wf(),
            r.queue() == Seq::<Match>::empty(),
            !r.ended(),
    {
        StreamSearch::new()
    }

    /// Whether `len` more bytes can be counted: the position after them is
    /// still a `usize`.
    pub fn fits(&self, len: usize) -> (r: bool)
        requires
            self.wf(),
        ensures
            r == (self@.pos + self@.held.len() + len <= usize::MAX),
    {
        let held: usize = match self.utf8_ragged_edge {
            Utf8RaggedEdge::Zero => 0,
            Utf8RaggedEdge::One(_) => 1,
            Utf8RaggedEdge::Two(_, _) => 2,
            Utf8RaggedEdge::Three(_, _, _) => 3,
        };
        match self.pos.checked_add(held) {
            Some(n) => n.checked_add(len).is_some(),
            None => false,
        }
    }

    /// The matches that are pending: not yet known to be complete.
    pub fn peek_finish(&self) -> (r: Vec<Match>)
        requires
            self.wf(),
        ensures
            r@ == pending(self@.words),
            reported(r@, self.max_lens().len(), self@.pos),
            one_match_per_pattern(r@),
            within(self.automaton(), self@, r@),
    {
        proof {
            law_pending_is_within(self.dfa, self@);
            lemma_pending_reported(self.dfa, self.pattern_max_lens@, self@);
            law_pending_one_per_pattern(self@.words);
        }
        let mut filtered: Vec<Match> = Vec::new();
        let mut i: usize = 0;
        proof {
            assert(self@.words.take(0) =~= Seq::<Word>::empty());
        }
        while i < self.state.len()
            invariant
                i <= self.state@.len(),
                self@.words == words(self.state@),
                filtered@ == pending(self@.words.take(i as int)),
            decreases self.state.len() - i,
        {
            let given = self.state[i].dump();
            proof {
                let upto = self@.words.take(i + 1);
                assert(upto.drop_last() =~= self@.words.take(i as int));
                assert(upto.last() == self.state@[i as int]@);
                assert(given@.take(0) =~= Seq::<Match>::empty());
            }
            let ghost base = filtered@;
            let mut k: usize = 0;
            while k < given.len()
                invariant
                    k <= given@.len(),
                    filtered@ == merge_all(base, given@.take(k as int)),
                decreases given.len() - k,
            {
                proof {
                    let upto = given@.take(k + 1);
                    assert(upto.drop_last() =~= given@.take(k as int));
                    assert(upto.last() == given@[k as int]);
                }
                merge(&mut filtered, given[k]);
                k += 1;
            }
            proof {
                assert(given@.take(k as int) =~= given@);
            }
            i += 1;
        }
        proof {
            assert(self@.words.take(i as int) =~= self@.words);
        }
        filtered
    }

    /// Gives the pending matches and clears the match state.
    pub fn finish(&mut self) -> (r: Vec<Match>)
        requires
            old(self).wf(),
        ensures
            final(self).wf(),
            final(self).same_patterns(old(self)),
            r@ == pending(old(self)@.words),
            final(self)@ == fresh(),
            reported(r@, old(self).max_lens().len(), old(self)@.pos),
            one_match_per_pattern(r@),
            within(old(self).automaton(), old(self)@, r@),
    {
        let res = self.peek_finish();
        self.reset();
        res
    }

    /// Clears the state: the searcher is as one that has consumed nothing.
    pub fn reset(&mut self)
        requires
            old(self).wf(),
        ensures
            final(self).wf(),
            final(self).same_patterns(old(self)),
            final(self)@ == fresh(),
    {
        self.pos = 0;
        self.ws_folded_pos = 0;
        self.last_word_was_ws = false;
        self.push_state = true;
        self.state.clear();
        self.utf8_ragged_edge = Utf8RaggedEdge::Zero;
        self.last_word = String::new();
        proof {
            assert(self@.words =~= Seq::<Word>::empty());
            assert(self@.held =~= Seq::<u8>::empty());
        }
    }
}

} // verus!
