//! The searcher as a mathematical state machine.
//!
//! A stream is a sequence of segments, each a non-empty string of bytes. The
//! searcher keeps a list of words: match attempts that are rooted at the start
//! of some segment. `step` consumes one segment, `feed` a sequence of them.

use super::automaton::{dfa_accepts, dfa_dead, dfa_moves, dfa_start, end_of_input, Dfa};
use super::text::{segments, utf8_fault, word_bounds};
use super::Match;
use vstd::prelude::*;
use vstd::utf8::{decode_utf8, valid_utf8};

verus! {

/// A pattern that has matched from a word's start up to byte `end`.
#[derive(Debug, Clone, Copy, PartialEq, Eq)]
pub struct Candidate {
    pub id: usize,
    pub end: usize,
}

/// A match attempt in progress.
pub struct Word {
    /// The byte at which the attempt starts.
    pub start: usize,
    /// The same position, counting each run of whitespace as one byte.
    pub folded: usize,
    /// The automaton's state after the input since `start`.
    pub state: usize,
    /// The latest end seen for each pattern that has matched, in the order
    /// in which the patterns first matched.
    pub ends: Seq<Candidate>,
}

/// The state of a searcher.
pub struct State {
    /// The number of bytes consumed since the last reset.
    pub pos: usize,
    /// The same, counting each run of whitespace as one byte.
    pub folded: usize,
    /// Whether the last segment was whitespace.
    pub blank: bool,
    /// Whether the next segment may start a new word. It may, except at the
    /// head of a chunk that goes on in the middle of a piece.
    pub armed: bool,
    /// The last piece of the text consumed, empty where nothing was consumed.
    pub tail: Seq<char>,
    /// The words in progress, in the order of their starts.
    pub words: Seq<Word>,
    /// The bytes of an incomplete character held back from the last chunk.
    pub held: Seq<u8>,
}

/// Whether a segment holds nothing but spaces, tabs and newlines.
pub open spec fn is_blank(seg: Seq<u8>) -> bool {
    forall|i: int| 0 <= i < seg.len() ==> seg[i] == 32 || seg[i] == 9 || seg[i] == 10
}

/// The state that the automaton reaches from `state` on `bytes`.
pub open spec fn run(dfa: Dfa, state: usize, bytes: Seq<u8>) -> usize
    decreases bytes.len(),
{
    if bytes.len() == 0 {
        state
    } else {
        dfa_moves(dfa)[(run(dfa, state, bytes.drop_last()), bytes.last() as int)]
    }
}

/// The patterns that match if the input ends in `state`.
pub open spec fn accepted(dfa: Dfa, state: usize) -> Seq<usize> {
    let last = dfa_moves(dfa)[(state, end_of_input())];
    if dfa_accepts(dfa).contains_key(last) {
        dfa_accepts(dfa)[last]
    } else {
        Seq::empty()
    }
}

/// The index of the first candidate for pattern `id`, or the length where
/// there is none.
pub open spec fn find_candidate(ends: Seq<Candidate>, id: usize) -> int
    decreases ends.len(),
{
    if ends.len() == 0 {
        0
    } else if ends[0].id == id {
        0
    } else {
        1 + find_candidate(ends.drop_first(), id)
    }
}

/// The candidates after pattern `id` has matched up to `end`: a later end
/// takes the place of an earlier one.
pub open spec fn upsert(ends: Seq<Candidate>, id: usize, end: usize) -> Seq<Candidate> {
    let i = find_candidate(ends, id);
    if i < ends.len() {
        ends.update(i, Candidate { id, end })
    } else {
        ends.push(Candidate { id, end })
    }
}

/// The candidates after each of the patterns `ids` has matched up to `end`.
pub open spec fn upsert_all(ends: Seq<Candidate>, ids: Seq<usize>, end: usize) -> Seq<Candidate>
    decreases ids.len(),
{
    if ids.len() == 0 {
        ends
    } else {
        upsert(upsert_all(ends, ids.drop_last(), end), ids.last(), end)
    }
}

/// The index of the first match of pattern `id`, or the length where
/// there is none.
pub open spec fn find_match(out: Seq<Match>, id: usize) -> int
    decreases out.len(),
{
    if out.len() == 0 {
        0
    } else if out[0].id == id {
        0
    } else {
        1 + find_match(out.drop_first(), id)
    }
}

/// `out` and one more match `m`, leftmost first: where `out` holds a match of
/// the same pattern, that match stays and takes the smaller start; otherwise
/// `m` is added.
pub open spec fn merge(out: Seq<Match>, m: Match) -> Seq<Match> {
    let i = find_match(out, m.id);
    if i < out.len() {
        out.update(
            i,
            Match {
                id: m.id,
                span: (
                    if m.span.0 < out[i].span.0 {
                        m.span.0
                    } else {
                        out[i].span.0
                    },
                    out[i].span.1,
                ),
            },
        )
    } else {
        out.push(m)
    }
}

/// `out` and each of `more`, merged one by one.
pub open spec fn merge_all(out: Seq<Match>, more: Seq<Match>) -> Seq<Match>
    decreases more.len(),
{
    if more.len() == 0 {
        out
    } else {
        merge(merge_all(out, more.drop_last()), more.last())
    }
}

/// The matches that a word's candidates stand for.
pub open spec fn dump(start: usize, ends: Seq<Candidate>) -> Seq<Match> {
    Seq::new(ends.len(), |i: int| Match { id: ends[i].id, span: (start, ends[i].end) })
}

/// Splits the candidates of a word that started at `start` and has come
/// `dist` folded bytes since: a candidate whose pattern cannot match more than
/// `dist` bytes is complete and is merged into `out`, the others are kept.
pub open spec fn promote(
    ends: Seq<Candidate>,
    lens: Seq<usize>,
    start: usize,
    dist: int,
    out: Seq<Match>,
) -> (Seq<Candidate>, Seq<Match>)
    decreases ends.len(),
{
    if ends.len() == 0 {
        (Seq::empty(), out)
    } else {
        let (kept, out) = promote(ends.drop_last(), lens, start, dist, out);
        let c = ends.last();
        if dist >= lens[c.id as int] {
            (kept, merge(out, Match { id: c.id, span: (start, c.end) }))
        } else {
            (kept.push(c), out)
        }
    }
}

/// One word over one segment that ends at `pos` (`folded` with whitespace
/// folded). Whitespace is fed as a single space; a word that dies on it
/// gives up its candidates, which are merged into `out`, and goes. Otherwise
/// the patterns that match now
/// are recorded and the complete candidates promoted; a word that is dead and
/// has no candidate left goes too.
pub open spec fn advance(
    dfa: Dfa,
    lens: Seq<usize>,
    word: Word,
    seg: Seq<u8>,
    pos: usize,
    folded: usize,
    out: Seq<Match>,
) -> (Option<Word>, Seq<Match>) {
    let state = if is_blank(seg) {
        dfa_moves(dfa)[(word.state, 32int)]
    } else {
        run(dfa, word.state, seg)
    };
    if is_blank(seg) && dfa_dead(dfa).contains(state) {
        (None, merge_all(out, dump(word.start, word.ends)))
    } else {
        let ends = upsert_all(word.ends, accepted(dfa, state), pos);
        let (ends, out) = promote(ends, lens, word.start, folded - word.folded, out);
        if dfa_dead(dfa).contains(state) && ends.len() == 0 {
            (None, out)
        } else {
            (Some(Word { start: word.start, folded: word.folded, state, ends }), out)
        }
    }
}

/// All words over one segment, in order, with the matches they give up.
pub open spec fn advance_all(
    dfa: Dfa,
    lens: Seq<usize>,
    words: Seq<Word>,
    seg: Seq<u8>,
    pos: usize,
    folded: usize,
) -> (Seq<Word>, Seq<Match>)
    decreases words.len(),
{
    if words.len() == 0 {
        (Seq::empty(), Seq::empty())
    } else {
        let (kept, out) = advance_all(dfa, lens, words.drop_last(), seg, pos, folded);
        let (word, out) = advance(dfa, lens, words.last(), seg, pos, folded, out);
        (
            match word {
                Some(word) => kept.push(word),
                None => kept,
            },
            out,
        )
    }
}

/// The searcher over one segment: the next state and the matches that are
/// complete. Whitespace directly after whitespace only moves the position.
/// Otherwise a new word starts at the segment's start if the searcher is armed
/// and the automaton has a start state, and all words advance.
pub open spec fn step(dfa: Dfa, lens: Seq<usize>, s: State, seg: Seq<u8>) -> (State, Seq<Match>) {
    let pos = (s.pos + seg.len()) as usize;
    if is_blank(seg) && s.blank {
        (State { pos, armed: true, ..s }, Seq::empty())
    } else {
        let folded = if is_blank(seg) {
            (s.folded + 1) as usize
        } else {
            (s.folded + seg.len()) as usize
        };
        let words = if s.armed && dfa_start(dfa) is Some {
            s.words.push(
                Word { start: s.pos, folded: s.folded, state: dfa_start(dfa)->0, ends: Seq::empty() },
            )
        } else {
            s.words
        };
        let (words, out) = advance_all(dfa, lens, words, seg, pos, folded);
        (
            State {
                pos,
                folded,
                blank: is_blank(seg),
                armed: true,
                tail: s.tail,
                words,
                held: s.held,
            },
            out,
        )
    }
}

/// The searcher over a sequence of segments.
pub open spec fn feed(dfa: Dfa, lens: Seq<usize>, s: State, segs: Seq<Seq<u8>>) -> (
    State,
    Seq<Match>,
)
    decreases segs.len(),
{
    if segs.len() == 0 {
        (s, Seq::empty())
    } else {
        let (s, out) = feed(dfa, lens, s, segs.drop_last());
        let (s, more) = step(dfa, lens, s, segs.last());
        (s, out + more)
    }
}

/// Whether a text that follows the piece `tail` begins a piece of its own:
/// nothing came before it, or the word-boundary rules cut the two apart.
pub open spec fn opens(tail: Seq<char>, text: Seq<char>) -> bool {
    tail.len() == 0 || (word_bounds(tail + text).len() > 0 && word_bounds(tail + text)[0]
        == tail)
}

/// The state at the start of a chunk: the chunk's first segment may start a
/// word exactly if the chunk begins a piece of its own.
pub open spec fn chunk_start(s: State, text: Seq<char>) -> State {
    State { armed: opens(s.tail, text), ..s }
}

/// The last piece of a stream that ended in `tail` and went on with `text`.
pub open spec fn next_tail(tail: Seq<char>, text: Seq<char>) -> Seq<char> {
    if word_bounds(text).len() == 0 {
        tail
    } else {
        word_bounds(text).last()
    }
}

/// The searcher over one chunk of text: the chunk's segments are fed from
/// the state at the start of the chunk, and its last piece is remembered.
pub open spec fn take_text(dfa: Dfa, lens: Seq<usize>, s: State, text: Seq<char>) -> (
    State,
    Seq<Match>,
) {
    let (end, out) = feed(dfa, lens, chunk_start(s, text), segments(text));
    (State { tail: next_tail(s.tail, text), ..end }, out)
}

/// The matches that are still pending: the candidates of all words, merged.
pub open spec fn pending(words: Seq<Word>) -> Seq<Match>
    decreases words.len(),
{
    if words.len() == 0 {
        Seq::empty()
    } else {
        merge_all(pending(words.drop_last()), dump(words.last().start, words.last().ends))
    }
}

/// The state of a searcher that has consumed nothing.
pub open spec fn fresh() -> State {
    State {
        pos: 0,
        folded: 0,
        blank: false,
        armed: true,
        tail: Seq::empty(),
        words: Seq::empty(),
        held: Seq::empty(),
    }
}


/// What a chunk of raw bytes brings after the bytes held back: the text to
/// consume and the bytes to hold back next, or `None` where the bytes cannot
/// be text.
///
/// Where all bytes are UTF-8, all are text and nothing is held. Where they
/// are UTF-8 up to an incomplete character at their end, the text before it
/// is consumed and the rest is held. Otherwise the input is refused.
pub open spec fn text_of(held: Seq<u8>, bytes: Seq<u8>) -> Option<(Seq<char>, Seq<u8>)> {
    let all = held + bytes;
    if valid_utf8(all) {
        Some((decode_utf8(all), Seq::empty()))
    } else {
        match utf8_fault(all) {
            Some(fault) => if fault.error_len is None {
                let cut = fault.valid_up_to as int;
                Some((decode_utf8(all.take(cut)), all.skip(cut)))
            } else {
                None
            },
            None => None,
        }
    }
}

/// The text that a chunk of raw bytes brings; empty where it brings none.
pub open spec fn text_in(held: Seq<u8>, bytes: Seq<u8>) -> Seq<char> {
    match text_of(held, bytes) {
        Some((text, _)) => text,
        None => Seq::empty(),
    }
}

/// The searcher over one chunk of raw bytes: the next state and the matches
/// that are complete, or `None` where the bytes cannot be text.
pub open spec fn take_bytes(dfa: Dfa, lens: Seq<usize>, s: State, bytes: Seq<u8>) -> Option<
    (State, Seq<Match>),
> {
    match text_of(s.held, bytes) {
        Some((text, held)) => {
            let (end, out) = take_text(dfa, lens, s, text);
            Some((State { held, ..end }, out))
        },
        None => None,
    }
}

/// What holds of every word of a valid state: its automaton state exists, it
/// started within the stream, and its candidates name patterns of the
/// automaton, each pattern at most once, and end after the word's start and
/// within the stream.
pub open spec fn word_valid(
    dfa: Dfa,
    lens: Seq<usize>,
    word: Word,
    pos: usize,
    folded: usize,
) -> bool {
    &&& super::automaton::dfa_states(dfa).contains(word.state)
    &&& word.folded <= folded
    &&& word.start <= pos
    &&& forall|j: int|
        0 <= j < word.ends.len() ==> (#[trigger] word.ends[j]).id < lens.len() && word.start
            < word.ends[j].end <= pos
    &&& one_per_pattern(word.ends)
}

/// The states that a searcher over `dfa` can be in: one bound per pattern,
/// the folded position no larger than the position, at most three bytes
/// held, and every word valid.
pub open spec fn valid(dfa: Dfa, lens: Seq<usize>, s: State) -> bool {
    &&& lens.len() == super::automaton::dfa_patterns(dfa)
    &&& s.folded <= s.pos
    &&& s.held.len() <= 3
    &&& forall|i: int|
        0 <= i < s.words.len() ==> word_valid(dfa, lens, #[trigger] s.words[i], s.pos, s.folded)
}

/// Whether every match is of one of `n` patterns and spans at least one
/// byte within the first `pos` bytes of the stream.
pub open spec fn reported(out: Seq<Match>, n: nat, pos: usize) -> bool {
    forall|k: int|
        0 <= k < out.len() ==> (#[trigger] out[k]).id < n && out[k].span.0 < out[k].span.1 <= pos
}

/// `find_candidate` gives the first index that holds the pattern.
pub proof fn lemma_find_candidate(ends: Seq<Candidate>, id: usize, i: int)
    requires
        0 <= i <= ends.len(),
        forall|j: int| 0 <= j < i ==> (#[trigger] ends[j]).id != id,
        i < ends.len() ==> ends[i].id == id,
    ensures
        find_candidate(ends, id) == i,
    decreases i,
{
    if i > 0 {
        let rest = ends.drop_first();
        assert forall|j: int| 0 <= j < i - 1 implies (#[trigger] rest[j]).id != id by {
            assert(rest[j] == ends[j + 1]);
        }
        lemma_find_candidate(rest, id, i - 1);
    }
}

/// `find_match` gives the first index that holds the pattern.
pub proof fn lemma_find_match(out: Seq<Match>, id: usize, i: int)
    requires
        0 <= i <= out.len(),
        forall|j: int| 0 <= j < i ==> (#[trigger] out[j]).id != id,
        i < out.len() ==> out[i].id == id,
    ensures
        find_match(out, id) == i,
    decreases i,
{
    if i > 0 {
        let rest = out.drop_first();
        assert forall|j: int| 0 <= j < i - 1 implies (#[trigger] rest[j]).id != id by {
            assert(rest[j] == out[j + 1]);
        }
        lemma_find_match(rest, id, i - 1);
    }
}


/// An upsert of a pattern below `n` that ends after `start` and within `pos`
/// keeps all candidates so.
pub proof fn lemma_upsert_within(
    ends: Seq<Candidate>,
    id: usize,
    end: usize,
    n: int,
    start: usize,
    pos: usize,
)
    requires
        id < n,
        start < end <= pos,
        forall|j: int| 0 <= j < ends.len() ==> (#[trigger] ends[j]).id < n && start < ends[j].end <= pos,
    ensures
        forall|j: int|
            0 <= j < upsert(ends, id, end).len() ==> (#[trigger] upsert(ends, id, end)[j]).id < n
                && start < upsert(ends, id, end)[j].end <= pos,
{
    let i = find_candidate(ends, id);
    lemma_find_candidate_first(ends, id);
    let after = upsert(ends, id, end);
    assert forall|j: int| 0 <= j < after.len() implies (#[trigger] after[j]).id < n && start
        < after[j].end <= pos by {
        if i < ends.len() {
            if j != i {
                assert(after[j] == ends[j]);
            }
        } else {
            if j < ends.len() {
                assert(after[j] == ends[j]);
            }
        }
    }
}

/// A merge keeps the matches within the patterns and the stream.
pub proof fn lemma_merge_reported(out: Seq<Match>, m: Match, n: nat, pos: usize)
    requires
        reported(out, n, pos),
        m.id < n,
        m.span.0 < m.span.1 <= pos,
    ensures
        reported(merge(out, m), n, pos),
{
    lemma_find_match_first(out, m.id);
    let i = find_match(out, m.id);
    let after = merge(out, m);
    assert forall|k: int| 0 <= k < after.len() implies (#[trigger] after[k]).id < n
        && after[k].span.0 < after[k].span.1 <= pos by {
        if i < out.len() {
            assert(out[i].id < n);
            if k != i {
                assert(after[k] == out[k]);
            }
        } else if k < out.len() {
            assert(after[k] == out[k]);
        }
    }
}

/// Merging keeps the matches within the patterns and the stream.
pub proof fn lemma_merge_all_reported(out: Seq<Match>, more: Seq<Match>, n: nat, pos: usize)
    requires
        reported(out, n, pos),
        reported(more, n, pos),
    ensures
        reported(merge_all(out, more), n, pos),
    decreases more.len(),
{
    if more.len() > 0 {
        assert forall|k: int| 0 <= k < more.drop_last().len() implies (
        #[trigger] more.drop_last()[k]).id < n && more.drop_last()[k].span.0
            < more.drop_last()[k].span.1 <= pos by {
            assert(more.drop_last()[k] == more[k]);
        }
        lemma_merge_all_reported(out, more.drop_last(), n, pos);
        assert(more.last() == more[more.len() - 1]);
        lemma_merge_reported(merge_all(out, more.drop_last()), more.last(), n, pos);
    }
}

/// A promotion keeps the matches within the patterns and the stream.
pub proof fn lemma_promote_reported(
    ends: Seq<Candidate>,
    lens: Seq<usize>,
    start: usize,
    dist: int,
    out: Seq<Match>,
    pos: usize,
)
    requires
        reported(out, lens.len(), pos),
        forall|j: int|
            0 <= j < ends.len() ==> (#[trigger] ends[j]).id < lens.len() && start < ends[j].end
                <= pos,
    ensures
        reported(promote(ends, lens, start, dist, out).1, lens.len(), pos),
    decreases ends.len(),
{
    if ends.len() > 0 {
        let front = ends.drop_last();
        assert forall|j: int| 0 <= j < front.len() implies (#[trigger] front[j]).id < lens.len()
            && start < front[j].end <= pos by {
            assert(front[j] == ends[j]);
        }
        lemma_promote_reported(front, lens, start, dist, out, pos);
        let c = ends.last();
        assert(c == ends[ends.len() - 1]);
        let before = promote(front, lens, start, dist, out).1;
        lemma_merge_reported(before, Match { id: c.id, span: (start, c.end) }, lens.len(), pos);
    }
}

/// A promotion keeps one match for each pattern.
pub proof fn lemma_promote_one_match(
    ends: Seq<Candidate>,
    lens: Seq<usize>,
    start: usize,
    dist: int,
    out: Seq<Match>,
)
    requires
        one_match_per_pattern(out),
    ensures
        one_match_per_pattern(promote(ends, lens, start, dist, out).1),
    decreases ends.len(),
{
    if ends.len() > 0 {
        lemma_promote_one_match(ends.drop_last(), lens, start, dist, out);
        let c = ends.last();
        let before = promote(ends.drop_last(), lens, start, dist, out).1;
        lemma_merge_one(before, Match { id: c.id, span: (start, c.end) });
    }
}

/// Whether no two candidates are for the same pattern.
pub open spec fn one_per_pattern(ends: Seq<Candidate>) -> bool {
    forall|i: int, j: int| 0 <= i < j < ends.len() ==> ends[i].id != ends[j].id
}

/// Whether no two matches are of the same pattern.
pub open spec fn one_match_per_pattern(out: Seq<Match>) -> bool {
    forall|i: int, j: int| 0 <= i < j < out.len() ==> out[i].id != out[j].id
}

/// What `find_candidate` finds: nothing before the index holds the pattern,
/// and the index does if it lies within.
pub proof fn lemma_find_candidate_first(ends: Seq<Candidate>, id: usize)
    ensures
        0 <= find_candidate(ends, id) <= ends.len(),
        forall|j: int| 0 <= j < find_candidate(ends, id) ==> (#[trigger] ends[j]).id != id,
        find_candidate(ends, id) < ends.len() ==> ends[find_candidate(ends, id)].id == id,
    decreases ends.len(),
{
    if ends.len() > 0 && ends[0].id != id {
        let rest = ends.drop_first();
        lemma_find_candidate_first(rest, id);
        assert forall|j: int| 0 <= j < find_candidate(ends, id) implies (#[trigger] ends[j]).id
            != id by {
            if j > 0 {
                assert(rest[j - 1] == ends[j]);
            }
        }
    }
}

/// What `find_match` finds.
pub proof fn lemma_find_match_first(out: Seq<Match>, id: usize)
    ensures
        0 <= find_match(out, id) <= out.len(),
        forall|j: int| 0 <= j < find_match(out, id) ==> (#[trigger] out[j]).id != id,
        find_match(out, id) < out.len() ==> out[find_match(out, id)].id == id,
    decreases out.len(),
{
    if out.len() > 0 && out[0].id != id {
        let rest = out.drop_first();
        lemma_find_match_first(rest, id);
        assert forall|j: int| 0 <= j < find_match(out, id) implies (#[trigger] out[j]).id
            != id by {
            if j > 0 {
                assert(rest[j - 1] == out[j]);
            }
        }
    }
}

/// An upsert keeps one candidate per pattern, and the pattern's candidate
/// then ends at the end given.
pub proof fn lemma_upsert_one(ends: Seq<Candidate>, id: usize, end: usize)
    requires
        one_per_pattern(ends),
    ensures
        one_per_pattern(upsert(ends, id, end)),
        find_candidate(upsert(ends, id, end), id) < upsert(ends, id, end).len(),
        upsert(ends, id, end)[find_candidate(upsert(ends, id, end), id)] == (Candidate { id, end }),
{
    lemma_find_candidate_first(ends, id);
    let i = find_candidate(ends, id);
    let after = upsert(ends, id, end);
    lemma_find_candidate(after, id, i);
}

/// Upserts keep one candidate per pattern.
pub proof fn lemma_upsert_all_one(ends: Seq<Candidate>, ids: Seq<usize>, end: usize)
    requires
        one_per_pattern(ends),
    ensures
        one_per_pattern(upsert_all(ends, ids, end)),
    decreases ids.len(),
{
    if ids.len() > 0 {
        lemma_upsert_all_one(ends, ids.drop_last(), end);
        lemma_upsert_one(upsert_all(ends, ids.drop_last(), end), ids.last(), end);
    }
}

/// The candidates that a promotion keeps are among those it was given, and
/// still one per pattern.
pub proof fn lemma_promote_keeps(
    ends: Seq<Candidate>,
    lens: Seq<usize>,
    start: usize,
    dist: int,
    out: Seq<Match>,
)
    requires
        one_per_pattern(ends),
    ensures
        one_per_pattern(promote(ends, lens, start, dist, out).0),
        forall|k: int|
            0 <= k < promote(ends, lens, start, dist, out).0.len() ==> exists|j: int|
                0 <= j < ends.len() && ends[j] == #[trigger] promote(
                    ends,
                    lens,
                    start,
                    dist,
                    out,
                ).0[k],
    decreases ends.len(),
{
    if ends.len() > 0 {
        let front = ends.drop_last();
        assert forall|i: int, j: int| 0 <= i < j < front.len() implies front[i].id
            != front[j].id by {
            assert(front[i] == ends[i] && front[j] == ends[j]);
        }
        lemma_promote_keeps(front, lens, start, dist, out);
        let (kept, out1) = promote(front, lens, start, dist, out);
        let c = ends.last();
        let after = promote(ends, lens, start, dist, out).0;
        assert forall|k: int| 0 <= k < after.len() implies exists|j: int|
            0 <= j < ends.len() && ends[j] == #[trigger] after[k] by {
            if k < kept.len() {
                let j = choose|j: int| 0 <= j < front.len() && front[j] == kept[k];
                assert(ends[j] == after[k]);
            } else {
                assert(ends[ends.len() - 1] == after[k]);
            }
        }
        if dist < lens[c.id as int] {
            assert forall|i: int, j: int| 0 <= i < j < after.len() implies after[i].id
                != after[j].id by {
                if j == kept.len() {
                    let x = choose|x: int| 0 <= x < front.len() && front[x] == kept[i];
                    assert(ends[x] == kept[i]);
                    assert(ends[x].id != ends[ends.len() - 1].id);
                } else {
                    assert(after[i] == kept[i] && after[j] == kept[j]);
                }
            }
        }
    }
}

/// A merge keeps one match per pattern.
pub proof fn lemma_merge_one(out: Seq<Match>, m: Match)
    requires
        one_match_per_pattern(out),
    ensures
        one_match_per_pattern(merge(out, m)),
{
    lemma_find_match_first(out, m.id);
}

/// Merging keeps one match per pattern.
pub proof fn lemma_merge_all_one(out: Seq<Match>, more: Seq<Match>)
    requires
        one_match_per_pattern(out),
    ensures
        one_match_per_pattern(merge_all(out, more)),
    decreases more.len(),
{
    if more.len() > 0 {
        lemma_merge_all_one(out, more.drop_last());
        lemma_merge_one(merge_all(out, more.drop_last()), more.last());
    }
}

/// The pending matches of a valid state are of its patterns and span at
/// least one byte within the stream.
pub proof fn lemma_pending_reported(dfa: Dfa, lens: Seq<usize>, s: State)
    requires
        valid(dfa, lens, s),
    ensures
        reported(pending(s.words), lens.len(), s.pos),
{
    lemma_pending_within(dfa, lens, s.words, s.pos, s.folded);
}

/// The pending matches of valid words lie within the stream.
pub proof fn lemma_pending_within(
    dfa: Dfa,
    lens: Seq<usize>,
    words: Seq<Word>,
    pos: usize,
    folded: usize,
)
    requires
        forall|i: int| 0 <= i < words.len() ==> word_valid(dfa, lens, #[trigger] words[i], pos, folded),
    ensures
        reported(pending(words), lens.len(), pos),
    decreases words.len(),
{
    if words.len() > 0 {
        let front = words.drop_last();
        assert forall|i: int| 0 <= i < front.len() implies word_valid(
            dfa,
            lens,
            #[trigger] front[i],
            pos,
            folded,
        ) by {
            assert(front[i] == words[i]);
        }
        lemma_pending_within(dfa, lens, front, pos, folded);
        let word = words.last();
        assert(word == words[words.len() - 1]);
        let given = dump(word.start, word.ends);
        assert forall|k: int| 0 <= k < given.len() implies (#[trigger] given[k]).id < lens.len()
            && given[k].span.0 < given[k].span.1 <= pos by {
            assert(word.ends[k].id < lens.len());
        }
        lemma_merge_all_reported(pending(front), given, lens.len(), pos);
    }
}

} // verus!
