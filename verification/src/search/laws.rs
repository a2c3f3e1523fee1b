//! What holds of the searcher whatever automaton it drives.

use super::automaton::{dfa_moves, dfa_start, Dfa};
use super::model::{
    accepted, advance_all, chunk_start, dump, feed, find_candidate, is_blank,
    lemma_find_candidate_first, lemma_merge_all_one, lemma_promote_keeps,
    lemma_promote_one_match, lemma_upsert_all_one, lemma_upsert_one, one_match_per_pattern,
    one_per_pattern, opens, pending, run, step, take_text, upsert, upsert_all, Candidate, State,
    Word,
};
use super::text::{segments, word_bounds};
use super::Match;
use vstd::prelude::*;

verus! {

/// Feeding segments one part after the other is feeding them all: the states
/// agree, and the matches of the parts follow one another.
pub proof fn law_feed_concat(
    dfa: Dfa,
    lens: Seq<usize>,
    s: State,
    a: Seq<Seq<u8>>,
    b: Seq<Seq<u8>>,
)
    ensures
        feed(dfa, lens, s, a + b) == ({
            let (mid, first) = feed(dfa, lens, s, a);
            let (end, second) = feed(dfa, lens, mid, b);
            (end, first + second)
        }),
    decreases b.len(),
{
    let (mid, first) = feed(dfa, lens, s, a);
    if b.len() == 0 {
        assert(a + b =~= a);
        assert(first + Seq::<Match>::empty() =~= first);
    } else {
        law_feed_concat(dfa, lens, s, a, b.drop_last());
        assert((a + b).drop_last() =~= a + b.drop_last());
        assert((a + b).last() == b.last());
        let (before, second) = feed(dfa, lens, mid, b.drop_last());
        let (end, more) = step(dfa, lens, before, b.last());
        assert((first + second) + more =~= first + (second + more));
    }
}

/// Feeding one segment is one step.
proof fn lemma_feed_one(dfa: Dfa, lens: Seq<usize>, s: State, seg: Seq<u8>)
    ensures
        feed(dfa, lens, s, seq![seg]) == step(dfa, lens, s, seg),
{
    assert(seq![seg].drop_last() =~= Seq::<Seq<u8>>::empty());
    assert(feed(dfa, lens, s, Seq::<Seq<u8>>::empty()) == (s, Seq::<Match>::empty()));
    assert(seq![seg].last() == seg);
    let (end, more) = step(dfa, lens, s, seg);
    assert(Seq::<Match>::empty() + more =~= more);
}

/// The state with a start attempt ahead.
pub open spec fn arm(s: State) -> State {
    State { armed: true, ..s }
}

/// After a segment the searcher attempts a start at the next.
pub proof fn lemma_feed_arms(dfa: Dfa, lens: Seq<usize>, s: State, segs: Seq<Seq<u8>>)
    requires
        segs.len() > 0 || s.armed,
    ensures
        feed(dfa, lens, s, segs).0.armed,
{
}

/// The searcher over a stream that arrives in chunks, each of them whole
/// segments of the stream, so that each begins with a start attempt.
pub open spec fn feed_chunks(
    dfa: Dfa,
    lens: Seq<usize>,
    s: State,
    chunks: Seq<Seq<Seq<u8>>>,
) -> (State, Seq<Match>)
    decreases chunks.len(),
{
    if chunks.len() == 0 {
        (arm(s), Seq::empty())
    } else {
        let (mid, first) = feed_chunks(dfa, lens, s, chunks.drop_last());
        let (end, second) = feed(dfa, lens, arm(mid), chunks.last());
        (end, first + second)
    }
}

/// The segments of all chunks, in order.
pub open spec fn unchunked(chunks: Seq<Seq<Seq<u8>>>) -> Seq<Seq<u8>>
    decreases chunks.len(),
{
    if chunks.len() == 0 {
        Seq::empty()
    } else {
        unchunked(chunks.drop_last()) + chunks.last()
    }
}

/// Chunk invariance, for the segments of a stream.
///
/// However the segments of a stream are dealt out to chunks, the chunks give
/// the state and the matches that the whole stream gives as one chunk.
pub proof fn law_chunk_invariance(
    dfa: Dfa,
    lens: Seq<usize>,
    s: State,
    chunks: Seq<Seq<Seq<u8>>>,
)
    ensures
        feed_chunks(dfa, lens, s, chunks) == feed(dfa, lens, arm(s), unchunked(chunks)),
    decreases chunks.len(),
{
    if chunks.len() > 0 {
        let front = chunks.drop_last();
        let last = chunks.last();
        law_chunk_invariance(dfa, lens, s, front);
        let (mid, first) = feed(dfa, lens, arm(s), unchunked(front));
        lemma_feed_arms(dfa, lens, arm(s), unchunked(front));
        assert(arm(mid) == mid);
        law_feed_concat(dfa, lens, arm(s), unchunked(front), last);
    }
}

/// Feeding does not look at the last piece remembered.
pub proof fn lemma_feed_keeps_tail(
    dfa: Dfa,
    lens: Seq<usize>,
    s: State,
    tail: Seq<char>,
    segs: Seq<Seq<u8>>,
)
    ensures
        feed(dfa, lens, State { tail, ..s }, segs) == (
            State { tail, ..feed(dfa, lens, s, segs).0 },
            feed(dfa, lens, s, segs).1,
        ),
    decreases segs.len(),
{
    if segs.len() > 0 {
        lemma_feed_keeps_tail(dfa, lens, s, tail, segs.drop_last());
    }
}

/// Chunk invariance, for a text that is cut in two on a word boundary.
///
/// Let the text `a + b` be cut into the chunks `a` and `b` where the
/// word-boundary rules cut it too: the pieces of the whole are the pieces of
/// `a` and then those of `b`, and `b` begins a piece of its own after the last
/// piece of `a`. Then the two chunks give the state and the matches of the
/// whole text as one chunk.
pub proof fn law_chunk_cut(dfa: Dfa, lens: Seq<usize>, s: State, a: Seq<char>, b: Seq<char>)
    requires
        word_bounds(a).len() > 0,
        word_bounds(a + b) == word_bounds(a) + word_bounds(b),
        opens(s.tail, a + b) == opens(s.tail, a),
        opens(word_bounds(a).last(), b),
    ensures
        take_text(dfa, lens, s, a + b) == ({
            let (mid, first) = take_text(dfa, lens, s, a);
            let (end, second) = take_text(dfa, lens, mid, b);
            (end, first + second)
        }),
{
    let begin = chunk_start(s, a);
    assert(begin == chunk_start(s, a + b));
    assert(segments(a + b) =~= segments(a) + segments(b));
    law_feed_concat(dfa, lens, begin, segments(a), segments(b));
    let (plain, first) = feed(dfa, lens, begin, segments(a));
    lemma_feed_arms(dfa, lens, begin, segments(a));
    let last = word_bounds(a).last();
    let mid = State { tail: last, ..plain };
    assert(take_text(dfa, lens, s, a) == (mid, first));
    assert(chunk_start(mid, b) == mid);
    lemma_feed_keeps_tail(dfa, lens, plain, last, segments(b));
    if word_bounds(b).len() > 0 {
        assert((word_bounds(a) + word_bounds(b)).last() == word_bounds(b).last());
    } else {
        assert(word_bounds(a) + word_bounds(b) =~= word_bounds(a));
    }
}

/// One word treats all whitespace alike.
proof fn lemma_advance_blank(
    dfa: Dfa,
    lens: Seq<usize>,
    words: Seq<Word>,
    a: Seq<u8>,
    b: Seq<u8>,
    pos: usize,
    folded: usize,
)
    requires
        is_blank(a),
        is_blank(b),
    ensures
        advance_all(dfa, lens, words, a, pos, folded) == advance_all(
            dfa,
            lens,
            words,
            b,
            pos,
            folded,
        ),
    decreases words.len(),
{
    if words.len() > 0 {
        lemma_advance_blank(dfa, lens, words.drop_last(), a, b, pos, folded);
    }
}

/// Whitespace folding, for one segment: a whitespace segment acts as any
/// other whitespace segment of the same length does.
pub proof fn law_whitespace_alike(dfa: Dfa, lens: Seq<usize>, s: State, a: Seq<u8>, b: Seq<u8>)
    requires
        is_blank(a),
        is_blank(b),
        a.len() == b.len(),
    ensures
        step(dfa, lens, s, a) == step(dfa, lens, s, b),
{
    let pos = (s.pos + a.len()) as usize;
    let folded = (s.folded + 1) as usize;
    let started = if s.armed && dfa_start(dfa) is Some {
        s.words.push(
            Word { start: s.pos, folded: s.folded, state: dfa_start(dfa)->0, ends: Seq::empty() },
        )
    } else {
        s.words
    };
    lemma_advance_blank(dfa, lens, started, a, b, pos, folded);
}

/// Whether some pattern can match a text that ends in whitespace.
pub open spec fn whitespace_ends(dfa: Dfa) -> bool {
    exists|state: usize| (#[trigger] accepted(dfa, dfa_moves(dfa)[(state, 32int)])).len() > 0
}

/// Where no match ends in whitespace, a word does not care where a
/// whitespace segment ends.
proof fn lemma_advance_blank_end(
    dfa: Dfa,
    lens: Seq<usize>,
    words: Seq<Word>,
    a: Seq<u8>,
    b: Seq<u8>,
    here: usize,
    there: usize,
    folded: usize,
)
    requires
        is_blank(a),
        is_blank(b),
        !whitespace_ends(dfa),
    ensures
        advance_all(dfa, lens, words, a, here, folded) == advance_all(
            dfa,
            lens,
            words,
            b,
            there,
            folded,
        ),
    decreases words.len(),
{
    if words.len() > 0 {
        lemma_advance_blank_end(dfa, lens, words.drop_last(), a, b, here, there, folded);
        let state = dfa_moves(dfa)[(words.last().state, 32int)];
        assert(accepted(dfa, dfa_moves(dfa)[(words.last().state, 32int)]).len() == 0);
        assert(accepted(dfa, state) =~= Seq::<usize>::empty());
    }
}

/// Whitespace folding, for a run of whitespace: where no match ends in
/// whitespace, two whitespace segments in a row act as one segment of their
/// length together.
pub proof fn law_whitespace_run_folds(
    dfa: Dfa,
    lens: Seq<usize>,
    s: State,
    a: Seq<u8>,
    b: Seq<u8>,
)
    requires
        is_blank(a),
        is_blank(b),
        !whitespace_ends(dfa),
        s.pos + a.len() + b.len() <= usize::MAX,
    ensures
        feed(dfa, lens, s, seq![a, b]) == step(dfa, lens, s, a + b),
{
    let both = seq![a, b];
    assert(both.drop_last() =~= seq![a]);
    assert(both.last() == b);
    lemma_feed_one(dfa, lens, s, a);
    let (mid, out) = step(dfa, lens, s, a);
    assert(out + Seq::<Match>::empty() =~= out);
    assert(is_blank(a + b)) by {
        assert forall|i: int| 0 <= i < (a + b).len() implies (a + b)[i] == 32 || (a + b)[i] == 9
            || (a + b)[i] == 10 by {
            if i < a.len() {
                assert((a + b)[i] == a[i]);
            } else {
                assert((a + b)[i] == b[i - a.len()]);
            }
        }
    }
    if !s.blank {
        let started = if s.armed && dfa_start(dfa) is Some {
            s.words.push(
                Word {
                    start: s.pos,
                    folded: s.folded,
                    state: dfa_start(dfa)->0,
                    ends: Seq::empty(),
                },
            )
        } else {
            s.words
        };
        lemma_advance_blank_end(
            dfa,
            lens,
            started,
            a,
            a + b,
            (s.pos + a.len()) as usize,
            (s.pos + a.len() + b.len()) as usize,
            (s.folded + 1) as usize,
        );
    }
}

/// Whether two streams of segments differ only in what their whitespace
/// segments hold: segment by segment they are equal, or both whitespace of
/// the same length.
pub open spec fn alike(a: Seq<Seq<u8>>, b: Seq<Seq<u8>>) -> bool {
    &&& a.len() == b.len()
    &&& forall|i: int|
        0 <= i < a.len() ==> #[trigger] a[i] == b[i] || (is_blank(a[i]) && is_blank(b[i])
            && a[i].len() == b[i].len())
}

/// Whitespace folding, for a stream: two streams that differ only in what
/// their whitespace segments hold give the same state and the same matches.
pub proof fn law_whitespace_folding(
    dfa: Dfa,
    lens: Seq<usize>,
    s: State,
    a: Seq<Seq<u8>>,
    b: Seq<Seq<u8>>,
)
    requires
        alike(a, b),
    ensures
        feed(dfa, lens, s, a) == feed(dfa, lens, s, b),
    decreases a.len(),
{
    if a.len() > 0 {
        assert forall|i: int| 0 <= i < a.drop_last().len() implies #[trigger] a.drop_last()[i]
            == b.drop_last()[i] || (is_blank(a.drop_last()[i]) && is_blank(b.drop_last()[i])
            && a.drop_last()[i].len() == b.drop_last()[i].len()) by {
            assert(a.drop_last()[i] == a[i]);
            assert(b.drop_last()[i] == b[i]);
        }
        law_whitespace_folding(dfa, lens, s, a.drop_last(), b.drop_last());
        let (mid, out) = feed(dfa, lens, s, a.drop_last());
        assert(a.last() == a[a.len() - 1]);
        assert(b.last() == b[a.len() - 1]);
        if a.last() != b.last() {
            law_whitespace_alike(dfa, lens, mid, a.last(), b.last());
        }
    }
}

/// Whether every word holds at most one candidate for each pattern.
pub open spec fn one_candidate_per_pattern(words: Seq<Word>) -> bool {
    forall|i: int| 0 <= i < words.len() ==> one_per_pattern((#[trigger] words[i]).ends)
}

/// The words that advance keep one candidate per pattern.
proof fn lemma_advance_all_one(
    dfa: Dfa,
    lens: Seq<usize>,
    words: Seq<Word>,
    seg: Seq<u8>,
    pos: usize,
    folded: usize,
)
    requires
        one_candidate_per_pattern(words),
    ensures
        one_candidate_per_pattern(advance_all(dfa, lens, words, seg, pos, folded).0),
    decreases words.len(),
{
    if words.len() > 0 {
        let front = words.drop_last();
        assert forall|i: int| 0 <= i < front.len() implies one_per_pattern(
            (#[trigger] front[i]).ends,
        ) by {
            assert(front[i] == words[i]);
        }
        lemma_advance_all_one(dfa, lens, front, seg, pos, folded);
        let (kept, out) = advance_all(dfa, lens, front, seg, pos, folded);
        let word = words.last();
        assert(word == words[words.len() - 1]);
        let state = if is_blank(seg) {
            dfa_moves(dfa)[(word.state, 32int)]
        } else {
            run(dfa, word.state, seg)
        };
        let ends = upsert_all(word.ends, accepted(dfa, state), pos);
        lemma_upsert_all_one(word.ends, accepted(dfa, state), pos);
        lemma_promote_keeps(ends, lens, word.start, folded - word.folded, out);
        let after = advance_all(dfa, lens, words, seg, pos, folded).0;
        assert forall|i: int| 0 <= i < after.len() implies one_per_pattern(
            (#[trigger] after[i]).ends,
        ) by {
            if i < kept.len() {
                assert(after[i] == kept[i]);
            }
        }
    }
}

/// Leftmost-longest, for the candidates: a word holds at most one candidate
/// for each pattern, at every step.
pub proof fn law_one_candidate_per_pattern(dfa: Dfa, lens: Seq<usize>, s: State, seg: Seq<u8>)
    requires
        one_candidate_per_pattern(s.words),
    ensures
        one_candidate_per_pattern(step(dfa, lens, s, seg).0.words),
{
    if !(is_blank(seg) && s.blank) {
        let pos = (s.pos + seg.len()) as usize;
        let folded = if is_blank(seg) {
            (s.folded + 1) as usize
        } else {
            (s.folded + seg.len()) as usize
        };
        let started = if s.armed && dfa_start(dfa) is Some {
            s.words.push(
                Word {
                    start: s.pos,
                    folded: s.folded,
                    state: dfa_start(dfa)->0,
                    ends: Seq::empty(),
                },
            )
        } else {
            s.words
        };
        assert forall|i: int| 0 <= i < started.len() implies one_per_pattern(
            (#[trigger] started[i]).ends,
        ) by {
            if i < s.words.len() {
                assert(started[i] == s.words[i]);
            }
        }
        lemma_advance_all_one(dfa, lens, started, seg, pos, folded);
    }
}

/// Leftmost-longest, for a pattern that matches again from the same start:
/// the later end takes the place of the earlier one.
pub proof fn law_later_end_supersedes(ends: Seq<Candidate>, id: usize, end: usize)
    requires
        one_per_pattern(ends),
    ensures
        one_per_pattern(upsert(ends, id, end)),
        upsert(ends, id, end).contains(Candidate { id, end }),
{
    lemma_upsert_one(ends, id, end);
    let after = upsert(ends, id, end);
    let i = find_candidate(after, id);
    lemma_find_candidate_first(after, id);
    assert(after[i] == (Candidate { id, end }));
}

/// Leftmost-longest, at the end of a stream: the pending matches hold at most
/// one match for each pattern.
pub proof fn law_pending_one_per_pattern(words: Seq<Word>)
    ensures
        one_match_per_pattern(pending(words)),
    decreases words.len(),
{
    if words.len() > 0 {
        law_pending_one_per_pattern(words.drop_last());
        lemma_merge_all_one(
            pending(words.drop_last()),
            dump(words.last().start, words.last().ends),
        );
    }
}

/// All words over one segment report at most one match for each pattern.
proof fn lemma_advance_all_one_match(
    dfa: Dfa,
    lens: Seq<usize>,
    words: Seq<Word>,
    seg: Seq<u8>,
    pos: usize,
    folded: usize,
)
    ensures
        one_match_per_pattern(advance_all(dfa, lens, words, seg, pos, folded).1),
    decreases words.len(),
{
    if words.len() > 0 {
        lemma_advance_all_one_match(dfa, lens, words.drop_last(), seg, pos, folded);
        let out = advance_all(dfa, lens, words.drop_last(), seg, pos, folded).1;
        let word = words.last();
        let state = if is_blank(seg) {
            dfa_moves(dfa)[(word.state, 32int)]
        } else {
            run(dfa, word.state, seg)
        };
        lemma_merge_all_one(out, dump(word.start, word.ends));
        lemma_promote_one_match(
            upsert_all(word.ends, accepted(dfa, state), pos),
            lens,
            word.start,
            folded - word.folded,
            out,
        );
    }
}

/// Leftmost-longest, for one step: a step reports at most one match for each
/// pattern.
pub proof fn law_step_one_match_per_pattern(dfa: Dfa, lens: Seq<usize>, s: State, seg: Seq<u8>)
    ensures
        one_match_per_pattern(step(dfa, lens, s, seg).1),
{
    if !(is_blank(seg) && s.blank) {
        let pos = (s.pos + seg.len()) as usize;
        let folded = if is_blank(seg) {
            (s.folded + 1) as usize
        } else {
            (s.folded + seg.len()) as usize
        };
        let started = if s.armed && dfa_start(dfa) is Some {
            s.words.push(
                Word {
                    start: s.pos,
                    folded: s.folded,
                    state: dfa_start(dfa)->0,
                    ends: Seq::empty(),
                },
            )
        } else {
            s.words
        };
        lemma_advance_all_one_match(dfa, lens, started, seg, pos, folded);
    }
}

} // verus!
