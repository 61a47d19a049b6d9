use chunk_cache::{ChunkCache, DataSource, Delta, DeltaElement, Error, GetDataResponse, TextUnit};

const CHUNK_SIZE: usize = 1024 * 1024;

/// A document in memory.
struct MockDataSource(String);

fn newlines(text: &str) -> usize {
    text.bytes().filter(|b| *b == b'\n').count()
}

fn start_of_line(text: &str, line: usize) -> Option<usize> {
    if line == 0 {
        return Some(0);
    }
    if line == newlines(text) + 1 {
        return Some(text.len());
    }
    text.bytes()
        .enumerate()
        .filter(|(_, b)| *b == b'\n')
        .map(|(i, _)| i + 1)
        .nth(line - 1)
}

fn resolve_offset(unit: TextUnit, text: &str, start: usize) -> Option<usize> {
    match unit {
        // there is nothing at the end of the text
        TextUnit::Utf8 if start >= text.len() => None,
        TextUnit::Utf8 => (0..=start).rev().find(|i| text.is_char_boundary(*i)),
        TextUnit::Line => start_of_line(text, start),
    }
}

impl DataSource for MockDataSource {
    fn get_data(
        &self,
        start: usize,
        unit: TextUnit,
        _max_size: usize,
        _rev: u64,
    ) -> Result<GetDataResponse, Error> {
        let offset = resolve_offset(unit, &self.0, start)
            .ok_or(Error::Other("unable to resolve offset".into()))?;
        let first_line = newlines(&self.0[..offset]);
        let first_line_offset = offset - start_of_line(&self.0, first_line).unwrap();
        let end_off = (offset + CHUNK_SIZE).min(self.0.len());
        let chunk = self.0[offset..end_off].to_string();
        Ok(GetDataResponse { chunk, offset, first_line, first_line_offset })
    }
}

/// Replaces the bytes from `start` up to `end` with `text` in a document of `base_len` bytes.
fn simple_edit(start: usize, end: usize, text: &str, base_len: usize) -> Delta {
    let mut els = Vec::new();
    if start > 0 {
        els.push(DeltaElement::Copy(0, start));
    }
    if !text.is_empty() {
        els.push(DeltaElement::Insert(text.to_string()));
    }
    if end < base_len {
        els.push(DeltaElement::Copy(end, base_len));
    }
    Delta { els, base_len }
}

fn new_document_len(delta: &Delta) -> usize {
    delta
        .els
        .iter()
        .map(|el| match el {
            DeltaElement::Copy(beg, end) => end - beg,
            DeltaElement::Insert(s) => s.len(),
        })
        .sum()
}

#[test]
fn simple_chunk() {
    let mut c = ChunkCache::default();
    c.buf_size = 2;
    c.contents = "oh".into();

    let d = simple_edit(0, 0, "yay", c.contents.len());
    c.apply_update(new_document_len(&d), 1, 1, Some(&d));
    assert_eq!(&c.contents, "yayoh");
    assert_eq!(c.offset, 0);

    let d = simple_edit(0, 0, "ahh", c.contents.len());
    c.apply_update(new_document_len(&d), 1, 2, Some(&d));

    assert_eq!(&c.contents, "ahhyayoh");
    assert_eq!(c.offset, 0);

    let d = simple_edit(2, 2, "_oops_", c.contents.len());
    assert_eq!(d.els.len(), 3);
    c.apply_update(new_document_len(&d), 1, 3, Some(&d));

    assert_eq!(&c.contents, "ah_oops_hyayoh");
    assert_eq!(c.offset, 0);

    let d = simple_edit(9, 9, "fin", c.contents.len());
    c.apply_update(new_document_len(&d), 1, 5, Some(&d));

    assert_eq!(&c.contents, "ah_oops_hfinyayoh");
    assert_eq!(c.offset, 0);
}

#[test]
fn get_lines() {
    let remote_document = MockDataSource("this\nhas\nfour\nlines!".into());
    let mut c = ChunkCache::default();
    c.buf_size = remote_document.0.len();
    c.num_lines = newlines(&remote_document.0) + 1;
    assert_eq!(c.num_lines, 4);
    assert_eq!(c.buf_size, 20);
    assert_eq!(c.line_offsets.len(), 0);
    assert_eq!(c.get_line(&remote_document, 0).ok(), Some("this\n"));
    assert_eq!(c.line_offsets.len(), 3);
    assert_eq!(c.offset, 0);
    assert_eq!(c.buf_size, 20);
    assert_eq!(c.contents.len(), 20);
    assert_eq!(c.get_line(&remote_document, 2).ok(), Some("four\n"));
    assert_eq!(c.cached_offset_of_line(4), Some(20));
    assert_eq!(c.get_line(&remote_document, 3).ok(), Some("lines!"));
    assert!(c.get_line(&remote_document, 4).is_err());
}

#[test]
fn reset_chunk() {
    let data = GetDataResponse {
        chunk: "1\n2\n3\n4\n5\n6\n7".into(),
        offset: 0,
        first_line: 0,
        first_line_offset: 0,
    };
    let mut cache = ChunkCache::default();
    cache.reset_chunk(data);

    assert_eq!(cache.line_offsets.len(), 6);
    assert_eq!(cache.line_offsets, vec![2, 4, 6, 8, 10, 12]);

    let idx_1 = cache.cached_offset_of_line(1).unwrap();
    let idx_2 = cache.cached_offset_of_line(2).unwrap();
    assert_eq!(&cache.contents.as_str()[idx_1..idx_2], "2\n");
}

#[test]
fn clear_up_to() {
    let mut c = ChunkCache::default();
    let data = GetDataResponse {
        chunk: "this\n has a newline at idx 4\nand at idx 28".into(),
        offset: 0,
        first_line: 0,
        first_line_offset: 0,
    };
    c.reset_chunk(data);
    assert_eq!(c.line_offsets, vec![5, 29]);
    c.clear_up_to(5);
    assert_eq!(c.offset, 5);
    assert_eq!(c.first_line, 1);
    assert_eq!(c.first_line_offset, 0);
    assert_eq!(c.line_offsets, vec![24]);

    c.clear_up_to(10);
    assert_eq!(c.offset, 15);
    assert_eq!(c.first_line, 1);
    assert_eq!(c.first_line_offset, 10);
    assert_eq!(c.line_offsets, vec![14]);
}

#[test]
fn simple_insert() {
    let mut c = ChunkCache::default();
    c.contents = "some".into();
    c.buf_size = 4;
    let d = simple_edit(0, 0, "two\nline\nbreaks", c.contents.len());
    assert!(d.as_simple_insert().is_some());
    assert!(!d.is_simple_delete());
    c.apply_update(new_document_len(&d), 3, 1, Some(&d));
    assert_eq!(c.line_offsets, vec![4, 9]);

    let d = simple_edit(4, 4, "one\nmore", c.contents.len());
    assert!(d.as_simple_insert().is_some());
    c.apply_update(new_document_len(&d), 4, 2, Some(&d));
    assert_eq!(&c.contents, "two\none\nmoreline\nbreakssome");
    assert_eq!(c.line_offsets, vec![4, 8, 17]);
}

#[test]
fn offset_of_line() {
    let source = MockDataSource("this\nhas\nfour\nlines!".into());
    let mut c = ChunkCache::default();
    c.buf_size = source.0.len();
    c.num_lines = newlines(&source.0) + 1;
    assert_eq!(c.num_lines, 4);
    assert_eq!(c.cached_offset_of_line(0), Some(0));
    assert_eq!(c.offset_of_line(&source, 0).unwrap(), 0);
    assert_eq!(c.offset_of_line(&source, 1).unwrap(), 5);
    assert_eq!(c.offset_of_line(&source, 2).unwrap(), 9);
    assert_eq!(c.offset_of_line(&source, 3).unwrap(), 14);
}

#[test]
fn simple_edits_with_offset() {
    let mut source = MockDataSource("this\nhas\nfour\nlines!".into());
    let mut c = ChunkCache::default();
    c.buf_size = source.0.len();
    c.num_lines = newlines(&source.0) + 1;
    // get line fetches from source, starting at this line
    assert_eq!(c.get_line(&source, 2).ok(), Some("four\n"));
    assert_eq!(c.offset, 9);
    assert_eq!(&c.contents, "four\nlines!");
    assert_eq!(c.offset_of_line(&source, 3).unwrap(), 14);
    let d = simple_edit(10, 10, "ive nice\ns", c.contents.len() + c.offset);
    c.apply_update(new_document_len(&d), 5, 1, Some(&d));
    // keep our source up to date
    source.0 = "this\nhas\nfive nice\nsour\nlines!".into();

    assert_eq!(&c.contents, "five nice\nsour\nlines!");
    assert_eq!(c.offset, 9);
    assert_eq!(c.offset_of_line(&source, 3).unwrap(), 19);
    assert_eq!(c.offset_of_line(&source, 4).unwrap(), 24);
    // this isn't in the chunk, so should cause a fetch that brings in the whole buffer
    assert_eq!(c.offset_of_line(&source, 0).unwrap(), 0);
    assert_eq!(c.offset, 0);
    assert_eq!(&c.contents, "this\nhas\nfive nice\nsour\nlines!");
    assert_eq!(c.offset_of_line(&source, 1).unwrap(), 5);
    assert_eq!(c.offset_of_line(&source, 3).unwrap(), 19);
    assert_eq!(c.offset_of_line(&source, 4).unwrap(), 24);

    // reset and fetch the middle, so we have an offset:
    c.clear_up_to(5);
    assert_eq!(&c.contents, "has\nfive nice\nsour\nlines!");
    assert_eq!(c.offset, 5);
    assert_eq!(c.first_line, 1);
    assert_eq!(c.offset_of_line(&source, 2).unwrap(), 9);
    let d = simple_edit(6, 10, "", c.contents.len() + c.offset);
    assert!(d.is_simple_delete());
    c.apply_update(new_document_len(&d), 4, 1, Some(&d));

    assert_eq!(&c.contents, "hive nice\nsour\nlines!");
    assert_eq!(c.offset, 5);
    assert_eq!(c.first_line, 1);
    assert_eq!(c.offset_of_line(&source, 2).unwrap(), 15);
}
