use chunk_cache::text::newline_offsets;
use chunk_cache::{ChunkCache, DataSource, Error, GetDataResponse, TextUnit};
use std::cell::RefCell;

/// A document that is handed out a few bytes at a time, and the requests made of it.
struct Slow {
    doc: String,
    step: usize,
    requests: RefCell<Vec<(usize, TextUnit, usize, u64)>>,
}

impl Slow {
    fn new(doc: &str, step: usize) -> Slow {
        Slow { doc: doc.to_string(), step, requests: RefCell::new(Vec::new()) }
    }

    fn cache(&self) -> ChunkCache {
        let mut c = ChunkCache::default();
        c.buf_size = self.doc.len();
        c.num_lines = self.doc.matches('\n').count() + 1;
        c.rev = 7;
        c
    }
}

impl DataSource for Slow {
    fn get_data(
        &self,
        start: usize,
        unit: TextUnit,
        max_size: usize,
        rev: u64,
    ) -> Result<GetDataResponse, Error> {
        self.requests.borrow_mut().push((start, unit, max_size, rev));
        let mut starts = vec![0];
        newline_offsets(&self.doc, &mut starts);
        starts.push(self.doc.len());
        let offset = match unit {
            TextUnit::Line => starts[start],
            TextUnit::Utf8 => start,
        };
        let end = (offset + self.step..)
            .find(|i| *i >= self.doc.len() || self.doc.is_char_boundary(*i))
            .unwrap()
            .min(self.doc.len());
        let before = &self.doc[..offset];
        let first_line = before.matches('\n').count();
        Ok(GetDataResponse {
            chunk: self.doc[offset..end].to_string(),
            offset,
            first_line,
            first_line_offset: offset - starts[first_line],
        })
    }
}

/// A source that fails.
struct Broken;

impl DataSource for Broken {
    fn get_data(
        &self,
        _start: usize,
        _unit: TextUnit,
        _max_size: usize,
        _rev: u64,
    ) -> Result<GetDataResponse, Error> {
        Err(Error::Other("gone".into()))
    }
}

#[test]
fn newline_offsets_are_line_starts() {
    let mut storage = vec![99];
    newline_offsets("a\n\nbc\n", &mut storage);
    assert_eq!(storage, vec![99, 2, 3, 6]);
    let mut storage = Vec::new();
    newline_offsets("", &mut storage);
    newline_offsets("no break", &mut storage);
    assert!(storage.is_empty());
    newline_offsets("\n", &mut storage);
    assert_eq!(storage, vec![1]);
    let mut storage = Vec::new();
    newline_offsets("\u{e9}\n\u{1f600}\n", &mut storage);
    assert_eq!(storage, vec![3, 8]);
}

#[test]
fn every_line_is_found_in_small_pieces() {
    let doc = "one\n\nthe third line\n\u{e9}t\u{e9}\nlast";
    for step in 1..40 {
        let source = Slow::new(doc, step);
        let mut c = source.cache();
        for line in [0, 3, 1, 4, 2, 2, 0, 4, 3] {
            let expected = doc.split_inclusive('\n').nth(line).unwrap();
            assert_eq!(c.get_line(&source, line).ok(), Some(expected));
            let start: usize = doc.split_inclusive('\n').take(line).map(|l| l.len()).sum();
            assert_eq!(c.offset_of_line(&source, line).ok(), Some(start));
            assert_eq!(c.contents, doc[c.offset..c.offset + c.contents.len()]);
        }
        assert_eq!(c.offset_of_line(&source, 5).ok(), Some(doc.len()));
    }
}

#[test]
fn a_line_past_the_chunk_is_fetched() {
    let source = Slow::new("a\nb\nc\nd\n", 3);
    let mut c = source.cache();
    assert_eq!(c.get_line(&source, 0).ok(), Some("a\n"));
    assert_eq!(c.contents, "a\nb");
    assert_eq!(c.get_line(&source, 3).ok(), Some("d\n"));
    assert_eq!(c.offset, 6);
    assert_eq!(c.first_line, 3);
    assert_eq!(c.get_line(&source, 4).ok(), Some(""));
}

#[test]
fn requests_ask_for_what_is_missing() {
    let source = Slow::new("ab\ncdefgh\n", 4);
    let mut c = source.cache();
    assert_eq!(c.get_line(&source, 1).ok(), Some("cdefgh\n"));
    assert_eq!(
        *source.requests.borrow(),
        vec![(1, TextUnit::Line, 1048576, 7), (7, TextUnit::Utf8, 1048576, 7)]
    );
    source.requests.borrow_mut().clear();
    assert_eq!(c.get_line(&source, 1).ok(), Some("cdefgh\n"));
    assert_eq!(c.offset_of_line(&source, 1).ok(), Some(3));
    assert!(source.requests.borrow().is_empty());
}

#[test]
fn what_precedes_a_long_line_is_discarded() {
    let source = Slow::new("ab\ncdefgh\n", 5);
    let mut c = source.cache();
    assert_eq!(c.get_line(&source, 0).ok(), Some("ab\n"));
    assert_eq!(c.contents, "ab\ncd");
    assert_eq!(c.get_line(&source, 1).ok(), Some("cdefgh\n"));
    assert_eq!(c.offset, 3);
    assert_eq!(c.first_line, 1);
    assert_eq!(c.first_line_offset, 0);
    assert_eq!(c.contents, "cdefgh\n");
    assert_eq!(c.line_offsets, vec![7]);
}

#[test]
fn a_line_beyond_the_document_is_refused() {
    let source = Slow::new("a\nb", 100);
    let mut c = source.cache();
    assert!(matches!(c.get_line(&source, 3), Err(Error::BadRequest)));
    assert!(matches!(c.offset_of_line(&source, 3), Err(Error::BadRequest)));
    assert!(source.requests.borrow().is_empty());
    assert_eq!(c.contents, "");
}

#[test]
fn the_error_of_the_source_is_passed_on() {
    let mut c = ChunkCache::default();
    c.num_lines = 3;
    c.buf_size = 9;
    match c.get_line(&Broken, 1) {
        Err(Error::Other(reason)) => assert_eq!(reason, "gone"),
        _ => panic!(),
    }
    match c.offset_of_line(&Broken, 1) {
        Err(Error::Other(reason)) => assert_eq!(reason, "gone"),
        _ => panic!(),
    }
    // the second request fails: what came before the line is gone by then
    c.reset_chunk(GetDataResponse {
        chunk: "ab\ncd".into(),
        offset: 0,
        first_line: 0,
        first_line_offset: 0,
    });
    assert!(matches!(c.get_line(&Broken, 1), Err(Error::Other(_))));
    assert_eq!(c.contents, "cd");
    assert_eq!((c.offset, c.first_line, c.first_line_offset), (3, 1, 0));
}

#[test]
fn the_start_of_a_line_may_lie_before_the_chunk() {
    let mut c = ChunkCache::default();
    c.buf_size = 9;
    c.num_lines = 3;
    c.reset_chunk(GetDataResponse {
        chunk: "b\ncd".into(),
        offset: 1,
        first_line: 0,
        first_line_offset: 1,
    });
    assert_eq!(c.cached_offset_of_line(0), None);
    assert_eq!(c.cached_offset_of_line(1), Some(2));
    assert_eq!(c.cached_offset_of_line(2), None);
    // the line after the last one starts at the end of the document
    c.buf_size = 5;
    c.num_lines = 2;
    assert_eq!(c.cached_offset_of_line(2), Some(4));
    assert_eq!(c.cached_offset_of_line(3), None);

    let source = Slow::new("ab\ncd", 100);
    assert_eq!(c.offset_of_line(&source, 0).ok(), Some(0));
    assert_eq!(c.offset, 0);
}

#[test]
fn trimming_twice_is_trimming_once() {
    let data = GetDataResponse {
        chunk: "x\nyy\nzzz\nw".into(),
        offset: 4,
        first_line: 1,
        first_line_offset: 2,
    };
    for m in 0..11 {
        for n in 0..(11 - m) {
            let mut twice = ChunkCache::default();
            twice.reset_chunk(data.clone());
            twice.clear_up_to(m);
            twice.clear_up_to(n);
            let mut once = ChunkCache::default();
            once.reset_chunk(data.clone());
            once.clear_up_to(m + n);
            assert_eq!(format!("{:?}", twice), format!("{:?}", once));
        }
    }
}

#[test]
fn trimming_before_the_first_break_counts_on() {
    let mut c = ChunkCache::default();
    c.reset_chunk(GetDataResponse {
        chunk: "x\u{e9}\nyy".into(),
        offset: 4,
        first_line: 1,
        first_line_offset: 2,
    });
    c.clear_up_to(3);
    assert_eq!((c.offset, c.first_line, c.first_line_offset), (7, 1, 5));
    assert_eq!(c.contents, "\nyy");
    assert_eq!(c.line_offsets, vec![1]);
}

#[test]
fn appending_finds_further_lines() {
    let mut c = ChunkCache::default();
    let piece = |chunk: &str, offset: usize| GetDataResponse {
        chunk: chunk.to_string(),
        offset,
        first_line: 0,
        first_line_offset: offset,
    };
    c.reset_chunk(piece("ab\nc", 0));
    c.append_chunk(piece("d\ne", 4));
    assert_eq!(c.contents, "ab\ncd\ne");
    assert_eq!(c.line_offsets, vec![3, 6]);
    assert_eq!(c.offset, 0);
}

#[test]
fn clearing_keeps_what_is_known_of_the_document() {
    let source = Slow::new("a\nb\nc", 100);
    let mut c = source.cache();
    assert_eq!(c.get_line(&source, 1).ok(), Some("b\n"));
    c.clear();
    assert_eq!(c.contents, "");
    assert!(c.line_offsets.is_empty());
    assert_eq!((c.offset, c.first_line, c.first_line_offset), (0, 0, 0));
    assert_eq!((c.buf_size, c.num_lines, c.rev), (5, 3, 7));
    assert_eq!(c.get_line(&source, 2).ok(), Some("c"));
}

#[test]
fn an_empty_document_has_one_empty_line() {
    let source = Slow::new("", 10);
    let mut c = source.cache();
    assert_eq!(c.get_line(&source, 0).ok(), Some(""));
    assert_eq!(c.offset_of_line(&source, 0).ok(), Some(0));
    assert_eq!(c.offset_of_line(&source, 1).ok(), Some(0));
}
