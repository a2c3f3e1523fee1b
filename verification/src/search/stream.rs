//! Searching a stream of raw bytes that arrives from a reader.
//!
//! Reading is left to the caller. What is decided here is what to do with
//! each thing that a read can bring: a chunk of bytes, the end of the stream,
//! or a failure.

use super::model::{fresh, pending, take_bytes, text_in};
use super::sound::{follows, within};
use super::text::segments;
use super::{Match, Search};
use vstd::prelude::*;

verus! {

#[verifier::external_type_specification]
#[verifier::external_body]
pub struct ExIoError(std::io::Error);

#[verifier::external_type_specification]
#[verifier::external_body]
pub struct ExUtf8Error(std::str::Utf8Error);

/// An error raised while searching a stream.
#[derive(Debug)]
pub enum SearchStreamError {
    /// The reader failed.
    IOError(std::io::Error),
    /// The stream holds bytes that are not UTF-8.
    Utf8Error,
}

impl From<std::io::Error> for SearchStreamError {
    fn from(e: std::io::Error) -> (r: SearchStreamError) {
        SearchStreamError::IOError(e)
    }
}

impl vstd::std_specs::convert::FromSpecImpl<std::io::Error> for SearchStreamError {
    open spec fn obeys_from_spec() -> bool {
        true
    }

    open spec fn from_spec(e: std::io::Error) -> SearchStreamError {
        SearchStreamError::IOError(e)
    }
}

impl From<std::str::Utf8Error> for SearchStreamError {
    fn from(e: std::str::Utf8Error) -> (r: SearchStreamError) {
        SearchStreamError::Utf8Error
    }
}

impl vstd::std_specs::convert::FromSpecImpl<std::str::Utf8Error> for SearchStreamError {
    open spec fn obeys_from_spec() -> bool {
        true
    }

    open spec fn from_spec(e: std::str::Utf8Error) -> SearchStreamError {
        SearchStreamError::Utf8Error
    }
}

/// What a stream search does next.
#[derive(Debug, Clone, Copy, PartialEq, Eq)]
pub enum Poll {
    /// A match is ready.
    Item(Match),
    /// More input has to be read.
    Read,
    /// The stream has ended and every match was given.
    Done,
}

/// The progress of a search over a stream that a reader delivers: the matches
/// found but not yet given out, and whether the stream has ended.
#[derive(Debug)]
pub struct StreamSearch {
    res_buf: Vec<Match>,
    given: usize,
    closed: bool,
}

impl StreamSearch {
    /// The matches that wait to be given out, in order.
    pub closed spec fn queue(&self) -> Seq<Match> {
        self.res_buf@.skip(self.given as int)
    }

    /// Whether the end of the stream was seen.
    pub closed spec fn ended(&self) -> bool {
        self.closed
    }

    /// The buffer's cursor lies within it.
    pub closed spec fn wf(&self) -> bool {
        self.given <= self.res_buf@.len()
    }

    /// A stream search that has read nothing.
    pub fn new() -> (r: StreamSearch)
        ensures
            r.wf(),
            r.queue() == Seq::<Match>::empty(),
            !r.ended(),
    {
        let r = StreamSearch { res_buf: Vec::new(), given: 0, closed: false };
        assert(r.queue() =~= Seq::<Match>::empty());
        r
    }

    /// Gives the next waiting match, or says whether to read on.
    pub fn poll(&mut self) -> (r: Poll)
        requires
            old(self).wf(),
        ensures
            final(self).wf(),
            final(self).ended() == old(self).ended(),
            r == (if old(self).queue().len() > 0 {
                Poll::Item(old(self).queue()[0])
            } else if old(self).ended() {
                Poll::Done
            } else {
                Poll::Read
            }),
            final(self).queue() == (if old(self).queue().len() > 0 {
                old(self).queue().drop_first()
            } else {
                old(self).queue()
            }),
    {
        if self.given < self.res_buf.len() {
            let m = self.res_buf[self.given];
            self.given = self.given + 1;
            assert(self.queue() =~= old(self).queue().drop_first());
            Poll::Item(m)
        } else if self.closed {
            Poll::Done
        } else {
            Poll::Read
        }
    }

    /// Takes what a read has brought and says how many bytes of it were
    /// consumed. An empty chunk is the end of the stream: the pending matches
    /// are queued and the searcher is reset. Any other chunk is searched and
    /// its complete matches are queued; bytes that cannot be text give an
    /// error and consume nothing.
    pub fn take(&mut self, search: &mut Search, chunk: &[u8]) -> (r: Result<
        usize,
        SearchStreamError,
    >)
        requires
            old(self).wf(),
            old(search).wf(),
            old(search)@.pos + old(search)@.held.len() + chunk@.len() <= usize::MAX,
        ensures
            final(self).wf(),
            final(search).wf(),
            final(search).same_patterns(old(search)),
            chunk@.len() == 0 ==> {
                &&& r matches Ok(n) && n == 0
                &&& final(self).ended()
                &&& final(self).queue() == pending(old(search)@.words)
                &&& final(search)@ == fresh()
                &&& within(old(search).automaton(), old(search)@, final(self).queue())
            },
            chunk@.len() > 0 ==> match take_bytes(
                old(search).automaton(),
                old(search).max_lens(),
                old(search)@,
                chunk@,
            ) {
                Some((state, found)) => {
                    &&& r matches Ok(n) && n == chunk@.len()
                    &&& final(self).ended() == old(self).ended()
                    &&& final(self).queue() == found
                    &&& final(search)@ == state
                    &&& follows(
                        old(search).automaton(),
                        old(search)@,
                        segments(text_in(old(search)@.held, chunk@)),
                        state,
                        found,
                    )
                },
                None => {
                    &&& r matches Err(SearchStreamError::Utf8Error)
                    &&& final(self).ended() == old(self).ended()
                    &&& final(self).queue() == old(self).queue()
                    &&& final(search)@ == old(search)@
                },
            },
    {
        if chunk.len() == 0 {
            self.closed = true;
            self.res_buf = search.finish();
            self.given = 0;
            assert(self.queue() =~= self.res_buf@);
            Ok(0)
        } else {
            match search.next_bytes(chunk) {
                Ok(found) => {
                    self.res_buf = found;
                    self.given = 0;
                    assert(self.queue() =~= self.res_buf@);
                    Ok(chunk.len())
                },
                Err(e) => Err(e),
            }
        }
    }
}

} // verus!
