use reggy::search::stream::Poll;
use reggy::{Match, Search, SearchStreamError, StreamSearch};

#[test]
fn stream_search_in_steps() {
    let mut search = Search::compile(&["ab", "c d"]).unwrap();
    let mut progress = StreamSearch::new();
    assert_eq!(progress.poll(), Poll::Read);
    assert_eq!(progress.take(&mut search, b"ab ab c").unwrap(), 7);
    assert_eq!(progress.poll(), Poll::Item(Match::new(0, (0, 2))));
    assert_eq!(progress.poll(), Poll::Item(Match::new(0, (3, 5))));
    assert_eq!(progress.poll(), Poll::Read);
    assert_eq!(progress.take(&mut search, b" d").unwrap(), 2);
    assert_eq!(progress.poll(), Poll::Item(Match::new(1, (6, 9))));
    assert_eq!(progress.poll(), Poll::Read);
    assert_eq!(progress.take(&mut search, b" ab c").unwrap(), 5);
    assert_eq!(progress.poll(), Poll::Item(Match::new(0, (10, 12))));
    assert_eq!(progress.poll(), Poll::Read);
    assert_eq!(progress.take(&mut search, b" d").unwrap(), 2);
    assert_eq!(progress.poll(), Poll::Item(Match::new(1, (13, 16))));
    assert_eq!(progress.poll(), Poll::Read);
    assert_eq!(progress.take(&mut search, b" c").unwrap(), 2);
    assert_eq!(progress.poll(), Poll::Read);
    assert_eq!(progress.take(&mut search, b"").unwrap(), 0);
    assert_eq!(progress.poll(), Poll::Done);
    assert_eq!(progress.poll(), Poll::Done);
    assert_eq!(search.peek_finish(), vec![]);
}

#[test]
fn stream_search_refuses_what_is_no_text() {
    let mut search = Search::compile(&["ab"]).unwrap();
    let mut progress = StreamSearch::new();
    assert_eq!(progress.take(&mut search, b"ab ").unwrap(), 3);
    assert!(matches!(
        progress.take(&mut search, &[0xff]),
        Err(SearchStreamError::Utf8Error)
    ));
    assert_eq!(progress.poll(), Poll::Item(Match::new(0, (0, 2))));
    assert_eq!(progress.poll(), Poll::Read);
}

#[test]
fn stream_errors_from_their_causes() {
    let failed = std::io::Error::new(std::io::ErrorKind::Other, "gone");
    assert!(matches!(
        SearchStreamError::from(failed),
        SearchStreamError::IOError(_)
    ));
    let no_text = std::str::from_utf8(&[0xff]).unwrap_err();
    assert!(matches!(
        SearchStreamError::from(no_text),
        SearchStreamError::Utf8Error
    ));
}

#[test]
fn a_searcher_begins_a_stream_search() {
    let mut search = Search::compile(&["b c"]).unwrap();
    let mut progress = search.iter();
    assert_eq!(progress.poll(), Poll::Read);
    assert!(search.fits(5));
    assert!(search.fits(usize::MAX));
    assert_eq!(progress.take(&mut search, b"a b c").unwrap(), 5);
    assert!(search.fits(usize::MAX - 5));
    assert!(!search.fits(usize::MAX - 4));
    assert_eq!(progress.poll(), Poll::Item(Match::new(0, (2, 5))));
    assert_eq!(progress.take(&mut search, b"").unwrap(), 0);
    assert_eq!(progress.poll(), Poll::Done);
}
