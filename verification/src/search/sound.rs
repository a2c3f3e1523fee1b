//! Every match that the searcher reports is a match of the automaton.
//!
//! A stream is the sequence of the segments consumed since the last reset.
//! A match is genuine if it spans whole segments and the automaton, started
//! at the first of them and fed them with whitespace folded, accepts the
//! match's pattern at the end of the last. The searcher's words and
//! candidates are rooted in the stream in the same way, and from that it
//! follows that all it reports is genuine.

use super::automaton::{dfa_moves, dfa_start, Dfa};
use super::model::{
    accepted, chunk_start, dump, feed, find_match, is_blank, lemma_find_match_first, merge,
    merge_all, pending, run, step, upsert, upsert_all, Candidate, State, Word,
};
use super::model::take_text;
use super::text::{lemma_total_concat, segments, total_len};
use super::Match;
use vstd::prelude::*;

verus! {

/// The state after the segments, started in `state`: a whitespace segment
/// directly after another changes nothing, any other whitespace segment counts
/// as one space, and every other segment is read byte by byte.
pub open spec fn trace(dfa: Dfa, state: usize, segs: Seq<Seq<u8>>) -> usize
    decreases segs.len(),
{
    if segs.len() == 0 {
        state
    } else {
        let before = trace(dfa, state, segs.drop_last());
        if !is_blank(segs.last()) {
            run(dfa, before, segs.last())
        } else if segs.len() >= 2 && is_blank(segs[segs.len() - 2]) {
            before
        } else {
            dfa_moves(dfa)[(before, 32int)]
        }
    }
}

/// The byte offset at which segment `i` starts.
pub open spec fn offset(segs: Seq<Seq<u8>>, i: int) -> nat {
    total_len(segs.take(i))
}

/// Whether pattern `id` matches the segments from `i` up to `j`.
pub open spec fn matches_between(dfa: Dfa, segs: Seq<Seq<u8>>, i: int, j: int, id: usize) -> bool {
    &&& 0 <= i < j <= segs.len()
    &&& dfa_start(dfa) is Some
    &&& accepted(dfa, trace(dfa, dfa_start(dfa)->0, segs.subrange(i, j))).contains(id)
}

/// Whether a candidate of a word that starts at segment `i` records a match.
pub open spec fn candidate_ok(dfa: Dfa, segs: Seq<Seq<u8>>, i: int, c: Candidate) -> bool {
    exists|j: int| #[trigger] matches_between(dfa, segs, i, j, c.id) && c.end == offset(segs, j)
}

/// Whether a match spans whole segments that its pattern matches.
pub open spec fn genuine(dfa: Dfa, segs: Seq<Seq<u8>>, m: Match) -> bool {
    exists|i: int, j: int| #[trigger]
        matches_between(dfa, segs, i, j, m.id) && m.span.0 == offset(segs, i) && m.span.1
            == offset(segs, j)
}

/// Whether a word is rooted at segment `i`: it starts there, its state is
/// the trace from there, and its candidates record matches from there.
pub open spec fn rooted_at(dfa: Dfa, segs: Seq<Seq<u8>>, word: Word, i: int) -> bool {
    &&& 0 <= i < segs.len()
    &&& dfa_start(dfa) is Some
    &&& word.start == offset(segs, i)
    &&& word.state == trace(dfa, dfa_start(dfa)->0, segs.subrange(i, segs.len() as int))
    &&& forall|k: int| 0 <= k < word.ends.len() ==> candidate_ok(dfa, segs, i, #[trigger] word.ends[k])
}

/// Whether a word is rooted at some segment.
pub open spec fn rooted(dfa: Dfa, segs: Seq<Seq<u8>>, word: Word) -> bool {
    exists|i: int| rooted_at(dfa, segs, word, i)
}

/// One more segment changes no offset within the stream.
pub proof fn lemma_offset_push(segs: Seq<Seq<u8>>, seg: Seq<u8>, j: int)
    requires
        0 <= j <= segs.len(),
    ensures
        offset(segs.push(seg), j) == offset(segs, j),
{
    assert(segs.push(seg).take(j) =~= segs.take(j));
}

/// Offsets grow with the index.
pub proof fn lemma_offset_grows(segs: Seq<Seq<u8>>, i: int, j: int)
    requires
        0 <= i <= j <= segs.len(),
    ensures
        offset(segs, i) <= offset(segs, j),
    decreases j - i,
{
    if i < j {
        lemma_offset_grows(segs, i, j - 1);
        assert(segs.take(j).drop_last() =~= segs.take(j - 1));
    }
}

/// A match within the stream is still one after one more segment.
pub proof fn lemma_matches_push(
    dfa: Dfa,
    segs: Seq<Seq<u8>>,
    seg: Seq<u8>,
    i: int,
    j: int,
    id: usize,
)
    requires
        matches_between(dfa, segs, i, j, id),
    ensures
        matches_between(dfa, segs.push(seg), i, j, id),
{
    assert(segs.push(seg).subrange(i, j) =~= segs.subrange(i, j));
}

/// A candidate that records a match still does after one more segment.
pub proof fn lemma_candidate_push(
    dfa: Dfa,
    segs: Seq<Seq<u8>>,
    seg: Seq<u8>,
    i: int,
    c: Candidate,
)
    requires
        candidate_ok(dfa, segs, i, c),
    ensures
        candidate_ok(dfa, segs.push(seg), i, c),
{
    let j = choose|j: int| #[trigger] matches_between(dfa, segs, i, j, c.id) && c.end == offset(segs, j);
    lemma_matches_push(dfa, segs, seg, i, j, c.id);
    lemma_offset_push(segs, seg, j);
}

/// A genuine match is still genuine after one more segment.
pub proof fn lemma_genuine_push(dfa: Dfa, segs: Seq<Seq<u8>>, seg: Seq<u8>, m: Match)
    requires
        genuine(dfa, segs, m),
    ensures
        genuine(dfa, segs.push(seg), m),
{
    let (i, j) = choose|i: int, j: int| #[trigger]
        matches_between(dfa, segs, i, j, m.id) && m.span.0 == offset(segs, i) && m.span.1
            == offset(segs, j);
    lemma_matches_push(dfa, segs, seg, i, j, m.id);
    lemma_offset_push(segs, seg, i);
    lemma_offset_push(segs, seg, j);
}

/// A candidate that records a match stands for a genuine match.
pub proof fn lemma_candidate_genuine(
    dfa: Dfa,
    segs: Seq<Seq<u8>>,
    i: int,
    start: usize,
    c: Candidate,
)
    requires
        candidate_ok(dfa, segs, i, c),
        start == offset(segs, i),
    ensures
        genuine(dfa, segs, Match { id: c.id, span: (start, c.end) }),
{
    let j = choose|j: int| #[trigger] matches_between(dfa, segs, i, j, c.id) && c.end == offset(segs, j);
    let m = Match { id: c.id, span: (start, c.end) };
    assert(matches_between(dfa, segs, i, j, m.id) && m.span.0 == offset(segs, i) && m.span.1
        == offset(segs, j));
}

/// Whether a word is about to be rooted at segment `i`: as `rooted_at`, but
/// `i` may be the index of the segment that comes next.
pub open spec fn rooted_before(dfa: Dfa, segs: Seq<Seq<u8>>, word: Word, i: int) -> bool {
    &&& 0 <= i <= segs.len()
    &&& dfa_start(dfa) is Some
    &&& word.start == offset(segs, i)
    &&& word.state == trace(dfa, dfa_start(dfa)->0, segs.subrange(i, segs.len() as int))
    &&& forall|k: int| 0 <= k < word.ends.len() ==> candidate_ok(dfa, segs, i, #[trigger] word.ends[k])
}

/// Whether every match of `out` is genuine and starts no later than `start`.
pub open spec fn genuine_up_to(dfa: Dfa, segs: Seq<Seq<u8>>, out: Seq<Match>, start: usize) -> bool {
    forall|k: int| 0 <= k < out.len() ==> genuine(dfa, segs, #[trigger] out[k]) && out[k].span.0 <= start
}

/// Whether every match of `out` is genuine.
pub open spec fn all_genuine(dfa: Dfa, segs: Seq<Seq<u8>>, out: Seq<Match>) -> bool {
    forall|k: int| 0 <= k < out.len() ==> genuine(dfa, segs, #[trigger] out[k])
}

/// Whether every candidate of `ends` records a match from segment `i`.
pub open spec fn all_ok(dfa: Dfa, segs: Seq<Seq<u8>>, i: int, ends: Seq<Candidate>) -> bool {
    forall|k: int| 0 <= k < ends.len() ==> candidate_ok(dfa, segs, i, #[trigger] ends[k])
}

/// A match that starts no earlier than all of `out` leaves `out` as it is
/// or comes last.
pub proof fn lemma_merge_later(out: Seq<Match>, m: Match)
    requires
        forall|k: int| 0 <= k < out.len() ==> (#[trigger] out[k]).span.0 <= m.span.0,
    ensures
        merge(out, m) == out || merge(out, m) == out.push(m),
{
    lemma_find_match_first(out, m.id);
    let i = find_match(out, m.id);
    if i < out.len() {
        assert(out[i].span.0 <= m.span.0);
        assert(merge(out, m) =~= out);
    }
}

/// Upserts of patterns that match up to `end` keep the candidates sound.
pub proof fn lemma_upsert_all_ok(
    dfa: Dfa,
    segs: Seq<Seq<u8>>,
    i: int,
    ends: Seq<Candidate>,
    ids: Seq<usize>,
    end: usize,
)
    requires
        all_ok(dfa, segs, i, ends),
        forall|k: int|
            0 <= k < ids.len() ==> candidate_ok(dfa, segs, i, Candidate { id: #[trigger] ids[k], end }),
    ensures
        all_ok(dfa, segs, i, upsert_all(ends, ids, end)),
    decreases ids.len(),
{
    if ids.len() > 0 {
        let front = ids.drop_last();
        assert forall|k: int| 0 <= k < front.len() implies candidate_ok(
            dfa,
            segs,
            i,
            Candidate { id: #[trigger] front[k], end },
        ) by {
            assert(front[k] == ids[k]);
        }
        lemma_upsert_all_ok(dfa, segs, i, ends, front, end);
        let before = upsert_all(ends, front, end);
        let id = ids.last();
        assert(id == ids[ids.len() - 1]);
        super::model::lemma_find_candidate_first(before, id);
        let after = upsert(before, id, end);
        assert forall|k: int| 0 <= k < after.len() implies candidate_ok(
            dfa,
            segs,
            i,
            #[trigger] after[k],
        ) by {
            if after[k] != (Candidate { id, end }) {
                assert(after[k] == before[k]);
            }
        }
    }
}

/// A promotion keeps the candidates sound and the matches genuine.
pub proof fn lemma_promote_ok(
    dfa: Dfa,
    segs: Seq<Seq<u8>>,
    i: int,
    ends: Seq<Candidate>,
    lens: Seq<usize>,
    start: usize,
    dist: int,
    out: Seq<Match>,
)
    requires
        start == offset(segs, i),
        all_ok(dfa, segs, i, ends),
        genuine_up_to(dfa, segs, out, start),
    ensures
        all_ok(dfa, segs, i, super::model::promote(ends, lens, start, dist, out).0),
        genuine_up_to(dfa, segs, super::model::promote(ends, lens, start, dist, out).1, start),
    decreases ends.len(),
{
    if ends.len() > 0 {
        let front = ends.drop_last();
        assert forall|k: int| 0 <= k < front.len() implies candidate_ok(
            dfa,
            segs,
            i,
            #[trigger] front[k],
        ) by {
            assert(front[k] == ends[k]);
        }
        lemma_promote_ok(dfa, segs, i, front, lens, start, dist, out);
        let (kept, out1) = super::model::promote(front, lens, start, dist, out);
        let c = ends.last();
        assert(c == ends[ends.len() - 1]);
        let (kept2, out2) = super::model::promote(ends, lens, start, dist, out);
        if dist >= lens[c.id as int] {
            let m = Match { id: c.id, span: (start, c.end) };
            lemma_candidate_genuine(dfa, segs, i, start, c);
            lemma_merge_later(out1, m);
            assert forall|k: int| 0 <= k < out2.len() implies genuine(dfa, segs, #[trigger] out2[k])
                && out2[k].span.0 <= start by {
                if out2 == out1 {
                } else if k < out1.len() {
                    assert(out2[k] == out1[k]);
                }
            }
        } else {
            assert forall|k: int| 0 <= k < kept2.len() implies candidate_ok(
                dfa,
                segs,
                i,
                #[trigger] kept2[k],
            ) by {
                if k < kept.len() {
                    assert(kept2[k] == kept[k]);
                }
            }
        }
    }
}

/// The trace over one more segment.
pub proof fn lemma_trace_push(dfa: Dfa, state: usize, segs: Seq<Seq<u8>>, seg: Seq<u8>, i: int)
    requires
        0 <= i <= segs.len(),
    ensures
        trace(dfa, state, segs.push(seg).subrange(i, segs.len() as int + 1)) == ({
            let before = trace(dfa, state, segs.subrange(i, segs.len() as int));
            if !is_blank(seg) {
                run(dfa, before, seg)
            } else if i < segs.len() && is_blank(segs.last()) {
                before
            } else {
                dfa_moves(dfa)[(before, 32int)]
            }
        }),
{
    let all = segs.push(seg).subrange(i, segs.len() as int + 1);
    assert(all.drop_last() =~= segs.subrange(i, segs.len() as int));
    assert(all.last() == seg);
    if i < segs.len() {
        assert(all[all.len() - 2] == segs.last());
    }
}

/// One word over one more segment: a rooted word stays rooted, and what it
/// gives up is genuine.
pub proof fn lemma_advance_ok(
    dfa: Dfa,
    lens: Seq<usize>,
    segs: Seq<Seq<u8>>,
    seg: Seq<u8>,
    word: Word,
    i: int,
    pos: usize,
    folded: usize,
    out: Seq<Match>,
)
    requires
        rooted_before(dfa, segs, word, i),
        is_blank(seg) ==> segs.len() == 0 || !is_blank(segs.last()),
        pos == total_len(segs.push(seg)),
        genuine_up_to(dfa, segs.push(seg), out, word.start),
    ensures
        ({
            let (next, more) = super::model::advance(dfa, lens, word, seg, pos, folded, out);
            &&& next is Some ==> rooted_at(dfa, segs.push(seg), next->0, i) && next->0.start
                == word.start
            &&& genuine_up_to(dfa, segs.push(seg), more, word.start)
        }),
{
    let after = segs.push(seg);
    let n = segs.len() as int;
    lemma_trace_push(dfa, dfa_start(dfa)->0, segs, seg, i);
    lemma_offset_push(segs, seg, i);
    assert(after.take(n + 1) =~= after);
    assert forall|k: int| 0 <= k < word.ends.len() implies candidate_ok(
        dfa,
        after,
        i,
        #[trigger] word.ends[k],
    ) by {
        lemma_candidate_push(dfa, segs, seg, i, word.ends[k]);
    }
    let state = if is_blank(seg) {
        dfa_moves(dfa)[(word.state, 32int)]
    } else {
        run(dfa, word.state, seg)
    };
    assert(state == trace(dfa, dfa_start(dfa)->0, after.subrange(i, n + 1)));
    if is_blank(seg) && super::automaton::dfa_dead(dfa).contains(state) {
        let given = super::model::dump(word.start, word.ends);
        assert forall|k: int| 0 <= k < given.len() implies genuine(dfa, after, #[trigger] given[k])
            && given[k].span.0 == word.start by {
            lemma_candidate_genuine(dfa, after, i, word.start, word.ends[k]);
        }
        lemma_merge_all_ok(dfa, after, out, given, word.start);
    } else {
        let ids = accepted(dfa, state);
        assert forall|k: int| 0 <= k < ids.len() implies candidate_ok(
            dfa,
            after,
            i,
            Candidate { id: #[trigger] ids[k], end: pos },
        ) by {
            let c = Candidate { id: ids[k], end: pos };
            assert(ids.contains(ids[k]));
            assert(matches_between(dfa, after, i, n + 1, c.id) && c.end == offset(after, n + 1));
        }
        lemma_upsert_all_ok(dfa, after, i, word.ends, ids, pos);
        lemma_promote_ok(
            dfa,
            after,
            i,
            upsert_all(word.ends, ids, pos),
            lens,
            word.start,
            folded - word.folded,
            out,
        );
    }
}

/// Whether the words stand in the order of their starts.
pub open spec fn ordered(words: Seq<Word>) -> bool {
    forall|a: int, b: int| 0 <= a < b < words.len() ==> words[a].start <= words[b].start
}

/// Whether a word is rooted, or about to be, at some segment.
pub open spec fn rooted_soon(dfa: Dfa, segs: Seq<Seq<u8>>, word: Word) -> bool {
    exists|i: int| rooted_before(dfa, segs, word, i)
}

/// Whether every word is rooted, or about to be, at some segment.
pub open spec fn all_rooted_before(dfa: Dfa, segs: Seq<Seq<u8>>, words: Seq<Word>) -> bool {
    forall|k: int| 0 <= k < words.len() ==> rooted_soon(dfa, segs, #[trigger] words[k])
}

/// Whether every word is rooted at some segment.
pub open spec fn all_rooted(dfa: Dfa, segs: Seq<Seq<u8>>, words: Seq<Word>) -> bool {
    forall|k: int| 0 <= k < words.len() ==> rooted(dfa, segs, #[trigger] words[k])
}

/// All words over one more segment.
pub proof fn lemma_advance_all_ok(
    dfa: Dfa,
    lens: Seq<usize>,
    segs: Seq<Seq<u8>>,
    seg: Seq<u8>,
    words: Seq<Word>,
    pos: usize,
    folded: usize,
)
    requires
        all_rooted_before(dfa, segs, words),
        ordered(words),
        is_blank(seg) ==> segs.len() == 0 || !is_blank(segs.last()),
        pos == total_len(segs.push(seg)),
    ensures
        ({
            let (kept, out) = super::model::advance_all(dfa, lens, words, seg, pos, folded);
            &&& all_rooted(dfa, segs.push(seg), kept)
            &&& ordered(kept)
            &&& all_genuine(dfa, segs.push(seg), out)
            &&& words.len() > 0 ==> genuine_up_to(dfa, segs.push(seg), out, words.last().start)
            &&& forall|k: int|
                0 <= k < kept.len() ==> words.len() > 0 && (#[trigger] kept[k]).start
                    <= words.last().start
        }),
    decreases words.len(),
{
    if words.len() > 0 {
        let front = words.drop_last();
        let word = words.last();
        assert(word == words[words.len() - 1]);
        assert forall|k: int| 0 <= k < front.len() implies rooted_soon(
            dfa,
            segs,
            #[trigger] front[k],
        ) by {
            assert(front[k] == words[k]);
        }
        assert forall|a: int, b: int| 0 <= a < b < front.len() implies front[a].start
            <= front[b].start by {
            assert(front[a] == words[a] && front[b] == words[b]);
        }
        lemma_advance_all_ok(dfa, lens, segs, seg, front, pos, folded);
        let (kept, out) = super::model::advance_all(dfa, lens, front, seg, pos, folded);
        if front.len() > 0 {
            assert(front.last() == words[words.len() - 2]);
            assert(front.last().start <= word.start);
        }
        assert(genuine_up_to(dfa, segs.push(seg), out, word.start));
        let i = choose|i: int| rooted_before(dfa, segs, word, i);
        lemma_advance_ok(dfa, lens, segs, seg, word, i, pos, folded, out);
        let (next, more) = super::model::advance(dfa, lens, word, seg, pos, folded, out);
        let (kept2, out2) = super::model::advance_all(dfa, lens, words, seg, pos, folded);
        assert(out2 == more);
        assert forall|k: int| 0 <= k < kept2.len() implies rooted(
            dfa,
            segs.push(seg),
            #[trigger] kept2[k],
        ) && kept2[k].start <= word.start by {
            if k < kept.len() {
                assert(kept2[k] == kept[k]);
            } else {
                assert(kept2[k] == next->0);
                assert(rooted_at(dfa, segs.push(seg), next->0, i));
            }
        }
        assert forall|a: int, b: int| 0 <= a < b < kept2.len() implies kept2[a].start
            <= kept2[b].start by {
            if b < kept.len() {
                assert(kept2[a] == kept[a] && kept2[b] == kept[b]);
            } else {
                assert(kept2[a] == kept[a]);
                assert(kept2[b] == next->0);
            }
        }
    }
}

/// Whether a state belongs to the stream `segs`: the position is the
/// length of the stream, the whitespace flag tells of its last segment, and
/// the words are rooted in it, in the order of their starts.
pub open spec fn sound(dfa: Dfa, segs: Seq<Seq<u8>>, s: State) -> bool {
    &&& s.pos == total_len(segs)
    &&& segs.len() > 0 ==> s.blank == is_blank(segs.last())
    &&& ordered(s.words)
    &&& all_rooted(dfa, segs, s.words)
}

/// A state without words at position zero belongs to the empty stream.
pub proof fn law_idle_is_sound(dfa: Dfa, s: State)
    requires
        s.pos == 0,
        s.words.len() == 0,
    ensures
        sound(dfa, Seq::empty(), s),
{
}

/// The start of a chunk belongs to the stream as the state before it does.
pub proof fn law_chunk_start_is_sound(dfa: Dfa, segs: Seq<Seq<u8>>, s: State, text: Seq<char>)
    requires
        sound(dfa, segs, s),
    ensures
        sound(dfa, segs, chunk_start(s, text)),
{
}

/// The words of a state that belongs to a stream start within it.
pub proof fn lemma_starts_within(dfa: Dfa, segs: Seq<Seq<u8>>, s: State, k: int)
    requires
        sound(dfa, segs, s),
        0 <= k < s.words.len(),
    ensures
        s.words[k].start <= s.pos,
{
    assert(rooted(dfa, segs, s.words[k]));
    let i = choose|i: int| rooted_at(dfa, segs, s.words[k], i);
    lemma_offset_grows(segs, i, segs.len() as int);
    assert(segs.take(segs.len() as int) =~= segs);
}

/// Byte-accurate spans, for one segment: after a step the state belongs to
/// the longer stream, and every match that the step reports is genuine.
pub proof fn law_step_is_sound(
    dfa: Dfa,
    lens: Seq<usize>,
    segs: Seq<Seq<u8>>,
    s: State,
    seg: Seq<u8>,
)
    requires
        sound(dfa, segs, s),
        total_len(segs.push(seg)) <= usize::MAX,
    ensures
        sound(dfa, segs.push(seg), step(dfa, lens, s, seg).0),
        all_genuine(dfa, segs.push(seg), step(dfa, lens, s, seg).1),
{
    let after = segs.push(seg);
    assert(after.drop_last() =~= segs);
    assert(after.last() == seg);
    let pos = (s.pos + seg.len()) as usize;
    if is_blank(seg) && s.blank {
        assert forall|k: int| 0 <= k < s.words.len() implies rooted(
            dfa,
            after,
            #[trigger] s.words[k],
        ) by {
            let word = s.words[k];
            assert(rooted(dfa, segs, word));
            let i = choose|i: int| rooted_at(dfa, segs, word, i);
            lemma_trace_push(dfa, dfa_start(dfa)->0, segs, seg, i);
            lemma_offset_push(segs, seg, i);
            assert forall|c: int| 0 <= c < word.ends.len() implies candidate_ok(
                dfa,
                after,
                i,
                #[trigger] word.ends[c],
            ) by {
                lemma_candidate_push(dfa, segs, seg, i, word.ends[c]);
            }
            assert(rooted_at(dfa, after, word, i));
        }
    } else {
        let folded = if is_blank(seg) {
            (s.folded + 1) as usize
        } else {
            (s.folded + seg.len()) as usize
        };
        let started = if s.armed && dfa_start(dfa) is Some {
            s.words.push(
                Word {
                    start: s.pos,
                    folded: s.folded,
                    state: dfa_start(dfa)->0,
                    ends: Seq::empty(),
                },
            )
        } else {
            s.words
        };
        assert forall|k: int| 0 <= k < started.len() implies rooted_soon(
            dfa,
            segs,
            #[trigger] started[k],
        ) by {
            if k < s.words.len() {
                assert(started[k] == s.words[k]);
                assert(rooted(dfa, segs, s.words[k]));
                let i = choose|i: int| rooted_at(dfa, segs, s.words[k], i);
                assert(rooted_before(dfa, segs, started[k], i));
            } else {
                let n = segs.len() as int;
                assert(segs.take(n) =~= segs);
                assert(segs.subrange(n, n) =~= Seq::<Seq<u8>>::empty());
                assert(rooted_before(dfa, segs, started[k], n));
            }
        }
        assert forall|a: int, b: int| 0 <= a < b < started.len() implies started[a].start
            <= started[b].start by {
            if b < s.words.len() {
                assert(started[a] == s.words[a] && started[b] == s.words[b]);
            } else {
                assert(started[a] == s.words[a]);
                lemma_starts_within(dfa, segs, s, a);
            }
        }
        lemma_advance_all_ok(dfa, lens, segs, seg, started, pos, folded);
    }
}

/// Byte-accurate spans, for a stream: after feeding more segments the state
/// belongs to the longer stream, and every match reported on the way is
/// genuine in it.
pub proof fn law_feed_is_sound(
    dfa: Dfa,
    lens: Seq<usize>,
    before: Seq<Seq<u8>>,
    s: State,
    segs: Seq<Seq<u8>>,
)
    requires
        sound(dfa, before, s),
        total_len(before + segs) <= usize::MAX,
    ensures
        sound(dfa, before + segs, feed(dfa, lens, s, segs).0),
        all_genuine(dfa, before + segs, feed(dfa, lens, s, segs).1),
    decreases segs.len(),
{
    if segs.len() == 0 {
        assert(before + segs =~= before);
    } else {
        let front = segs.drop_last();
        assert((before + segs).drop_last() =~= before + front);
        assert(before + segs =~= (before + front).push(segs.last()));
        law_feed_is_sound(dfa, lens, before, s, front);
        let (mid, out) = feed(dfa, lens, s, front);
        law_step_is_sound(dfa, lens, before + front, mid, segs.last());
        let (end, more) = step(dfa, lens, mid, segs.last());
        assert forall|k: int| 0 <= k < (out + more).len() implies genuine(
            dfa,
            before + segs,
            #[trigger] (out + more)[k],
        ) by {
            if k < out.len() {
                assert((out + more)[k] == out[k]);
                lemma_genuine_push(dfa, before + front, segs.last(), out[k]);
            } else {
                assert((out + more)[k] == more[k - out.len()]);
            }
        }
    }
}

/// Merging genuine matches of words in the order of their starts gives
/// genuine matches.
pub proof fn lemma_merge_all_ok(
    dfa: Dfa,
    segs: Seq<Seq<u8>>,
    out: Seq<Match>,
    more: Seq<Match>,
    start: usize,
)
    requires
        genuine_up_to(dfa, segs, out, start),
        forall|k: int|
            0 <= k < more.len() ==> genuine(dfa, segs, #[trigger] more[k]) && more[k].span.0
                == start,
    ensures
        genuine_up_to(dfa, segs, merge_all(out, more), start),
    decreases more.len(),
{
    if more.len() > 0 {
        let front = more.drop_last();
        assert forall|k: int| 0 <= k < front.len() implies genuine(dfa, segs, #[trigger] front[k])
            && front[k].span.0 == start by {
            assert(front[k] == more[k]);
        }
        lemma_merge_all_ok(dfa, segs, out, front, start);
        let merged = merge_all(out, front);
        let m = more.last();
        assert(m == more[more.len() - 1]);
        lemma_merge_later(merged, m);
        let after = merge(merged, m);
        assert forall|k: int| 0 <= k < after.len() implies genuine(dfa, segs, #[trigger] after[k])
            && after[k].span.0 <= start by {
            if after == merged {
            } else if k < merged.len() {
                assert(after[k] == merged[k]);
            }
        }
    }
}

/// The pending matches of rooted words in order are genuine.
proof fn lemma_pending_ok(dfa: Dfa, segs: Seq<Seq<u8>>, words: Seq<Word>)
    requires
        ordered(words),
        all_rooted(dfa, segs, words),
    ensures
        all_genuine(dfa, segs, pending(words)),
        words.len() > 0 ==> genuine_up_to(dfa, segs, pending(words), words.last().start),
    decreases words.len(),
{
    if words.len() > 0 {
        let front = words.drop_last();
        let word = words.last();
        assert(word == words[words.len() - 1]);
        assert forall|k: int| 0 <= k < front.len() implies rooted(dfa, segs, #[trigger] front[k]) by {
            assert(front[k] == words[k]);
        }
        assert forall|a: int, b: int| 0 <= a < b < front.len() implies front[a].start
            <= front[b].start by {
            assert(front[a] == words[a] && front[b] == words[b]);
        }
        lemma_pending_ok(dfa, segs, front);
        if front.len() > 0 {
            assert(front.last() == words[words.len() - 2]);
        }
        assert(genuine_up_to(dfa, segs, pending(front), word.start));
        assert(rooted(dfa, segs, word));
        let i = choose|i: int| rooted_at(dfa, segs, word, i);
        let given = dump(word.start, word.ends);
        assert forall|k: int| 0 <= k < given.len() implies genuine(dfa, segs, #[trigger] given[k])
            && given[k].span.0 == word.start by {
            lemma_candidate_genuine(dfa, segs, i, word.start, word.ends[k]);
        }
        lemma_merge_all_ok(dfa, segs, pending(front), given, word.start);
    }
}

/// Byte-accurate spans, at the end of a stream: every pending match of a
/// state that belongs to the stream is genuine.
pub proof fn law_pending_is_genuine(dfa: Dfa, segs: Seq<Seq<u8>>, s: State)
    requires
        sound(dfa, segs, s),
    ensures
        all_genuine(dfa, segs, pending(s.words)),
{
    lemma_pending_ok(dfa, segs, s.words);
}

/// Whether a call that consumed `segs` and reported `out` kept the searcher
/// within its stream: whatever stream the state before belonged to, the state
/// after belongs to that stream and `segs`, and every match of `out` is
/// genuine in it.
pub open spec fn follows(
    dfa: Dfa,
    before: State,
    segs: Seq<Seq<u8>>,
    after: State,
    out: Seq<Match>,
) -> bool {
    forall|stream: Seq<Seq<u8>>| #[trigger]
        sound(dfa, stream, before) ==> sound(dfa, stream + segs, after) && all_genuine(
            dfa,
            stream + segs,
            out,
        )
}

/// Whether every match of `out` is genuine in whatever stream the state
/// belongs to.
pub open spec fn within(dfa: Dfa, s: State, out: Seq<Match>) -> bool {
    forall|stream: Seq<Seq<u8>>| #[trigger] sound(dfa, stream, s) ==> all_genuine(dfa, stream, out)
}

/// Byte-accurate spans, for the pending matches: they are genuine in
/// whatever stream the state belongs to.
pub proof fn law_pending_is_within(dfa: Dfa, s: State)
    ensures
        within(dfa, s, pending(s.words)),
{
    assert forall|stream: Seq<Seq<u8>>| #[trigger] sound(dfa, stream, s) implies all_genuine(
        dfa,
        stream,
        pending(s.words),
    ) by {
        law_pending_is_genuine(dfa, stream, s);
    }
}

/// Byte-accurate spans, for a chunk of text: the searcher stays within its
/// stream, and every match that the chunk brings is genuine.
pub proof fn law_take_text_is_sound(dfa: Dfa, lens: Seq<usize>, s: State, text: Seq<char>)
    requires
        s.pos + total_len(segments(text)) <= usize::MAX,
    ensures
        follows(
            dfa,
            s,
            segments(text),
            take_text(dfa, lens, s, text).0,
            take_text(dfa, lens, s, text).1,
        ),
{
    let segs = segments(text);
    assert forall|stream: Seq<Seq<u8>>| #[trigger] sound(dfa, stream, s) implies sound(
        dfa,
        stream + segs,
        take_text(dfa, lens, s, text).0,
    ) && all_genuine(dfa, stream + segs, take_text(dfa, lens, s, text).1) by {
        lemma_total_concat(stream, segs);
        law_chunk_start_is_sound(dfa, stream, s, text);
        law_feed_is_sound(dfa, lens, stream, chunk_start(s, text), segs);
    }
}

/// Holding bytes back does not take the searcher out of its stream.
pub proof fn lemma_follows_held(
    dfa: Dfa,
    before: State,
    segs: Seq<Seq<u8>>,
    fed: State,
    after: State,
    out: Seq<Match>,
)
    requires
        follows(dfa, before, segs, fed, out),
        after == (State { held: after.held, ..fed }),
    ensures
        follows(dfa, before, segs, after, out),
{
    assert forall|stream: Seq<Seq<u8>>| #[trigger] sound(dfa, stream, before) implies sound(
        dfa,
        stream + segs,
        after,
    ) && all_genuine(dfa, stream + segs, out) by {
        assert(sound(dfa, stream + segs, fed));
    }
}

} // verus!
