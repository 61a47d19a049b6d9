use chunk_cache::text::newline_offsets;
use chunk_cache::{ChunkCache, DataSource, Delta, DeltaElement, Error, GetDataResponse, TextUnit};

struct Doc(String);

impl DataSource for Doc {
    fn get_data(
        &self,
        start: usize,
        unit: TextUnit,
        _max_size: usize,
        _rev: u64,
    ) -> Result<GetDataResponse, Error> {
        let mut starts = vec![0];
        newline_offsets(&self.0, &mut starts);
        starts.push(self.0.len());
        let offset = match unit {
            TextUnit::Line => starts[start],
            TextUnit::Utf8 => start,
        };
        let first_line = self.0[..offset].matches('\n').count();
        Ok(GetDataResponse {
            chunk: self.0[offset..].to_string(),
            offset,
            first_line,
            first_line_offset: offset - starts[first_line],
        })
    }
}

fn copy(beg: usize, end: usize) -> DeltaElement {
    DeltaElement::Copy(beg, end)
}

fn insert(text: &str) -> DeltaElement {
    DeltaElement::Insert(text.to_string())
}

fn edit(start: usize, end: usize, text: &str, base_len: usize) -> Delta {
    let mut els = Vec::new();
    if start > 0 {
        els.push(copy(0, start));
    }
    if !text.is_empty() {
        els.push(insert(text));
    }
    if end < base_len {
        els.push(copy(end, base_len));
    }
    Delta { els, base_len }
}

/// A cache of the bytes of `doc` from `from` up to `to`.
fn cache_of(doc: &str, from: usize, to: usize) -> ChunkCache {
    let before = &doc[..from];
    let mut c = ChunkCache::default();
    c.reset_chunk(GetDataResponse {
        chunk: doc[from..to].to_string(),
        offset: from,
        first_line: before.matches('\n').count(),
        first_line_offset: before.len() - before.rfind('\n').map_or(0, |i| i + 1),
    });
    c.buf_size = doc.len();
    c.num_lines = doc.matches('\n').count() + 1;
    c
}

fn update(c: &mut ChunkCache, doc: &str, d: &Delta) -> String {
    let mut new = String::new();
    for el in &d.els {
        match el {
            DeltaElement::Copy(beg, end) => new.push_str(&doc[*beg..*end]),
            DeltaElement::Insert(s) => new.push_str(s),
        }
    }
    c.apply_update(new.len(), new.matches('\n').count() + 1, 3, Some(d));
    new
}

fn assert_tracks(c: &ChunkCache, doc: &str) {
    let end = c.offset + c.contents.len();
    let mut fresh = cache_of(doc, c.offset, end);
    fresh.rev = c.rev;
    assert_eq!(format!("{:?}", c), format!("{:?}", fresh));
}

#[test]
fn intervals_of_deltas() {
    let d = |els| Delta { els, base_len: 10 };
    assert_eq!(d(vec![]).interval(), (0, 10));
    assert_eq!(d(vec![copy(0, 10)]).interval(), (10, 10));
    assert_eq!(d(vec![copy(0, 4)]).interval(), (4, 10));
    assert_eq!(d(vec![copy(4, 10)]).interval(), (0, 4));
    assert_eq!(d(vec![copy(0, 4), copy(6, 10)]).interval(), (4, 6));
    assert_eq!(d(vec![copy(0, 4), insert("x"), copy(6, 10)]).interval(), (4, 6));
    assert_eq!(d(vec![copy(0, 4), insert("x")]).interval(), (4, 10));
    assert_eq!(d(vec![insert("x"), copy(0, 10)]).interval(), (0, 0));
    assert_eq!(d(vec![copy(0, 10), insert("x")]).interval(), (10, 10));
    assert_eq!(d(vec![copy(0, 2), copy(3, 4), copy(5, 9)]).interval(), (2, 10));
}

#[test]
fn simple_deletes() {
    let d = |els, base_len| Delta { els, base_len };
    assert!(d(vec![], 1).is_simple_delete());
    assert!(!d(vec![], 0).is_simple_delete());
    assert!(d(vec![copy(0, 4)], 10).is_simple_delete());
    assert!(!d(vec![copy(0, 10)], 10).is_simple_delete());
    assert!(d(vec![copy(4, 10)], 10).is_simple_delete());
    assert!(!d(vec![copy(4, 9)], 10).is_simple_delete());
    assert!(d(vec![copy(0, 4), copy(6, 10)], 10).is_simple_delete());
    assert!(!d(vec![copy(0, 4), copy(4, 10)], 10).is_simple_delete());
    assert!(!d(vec![copy(0, 4), copy(6, 9)], 10).is_simple_delete());
    assert!(!d(vec![copy(1, 4), copy(6, 10)], 10).is_simple_delete());
    assert!(!d(vec![copy(0, 4), insert("x")], 10).is_simple_delete());
    assert!(!d(vec![copy(0, 2), copy(4, 6), copy(8, 10)], 10).is_simple_delete());
    assert!(!d(vec![insert("x")], 0).is_simple_delete());
}

#[test]
fn simple_inserts() {
    let d = |els, base_len| Delta { els, base_len };
    let text = |d: Delta| d.as_simple_insert().cloned();
    assert_eq!(text(d(vec![insert("x")], 0)), Some("x".to_string()));
    assert_eq!(text(d(vec![insert("x")], 3)), None);
    assert_eq!(text(d(vec![copy(0, 3), insert("x")], 3)), Some("x".to_string()));
    assert_eq!(text(d(vec![copy(0, 2), insert("x")], 3)), None);
    assert_eq!(text(d(vec![insert("x"), copy(0, 3)], 3)), Some("x".to_string()));
    assert_eq!(text(d(vec![insert("x"), copy(1, 3)], 3)), None);
    assert_eq!(text(d(vec![copy(0, 1), insert("x"), copy(1, 3)], 3)), Some("x".to_string()));
    assert_eq!(text(d(vec![copy(0, 1), insert("x"), copy(2, 3)], 3)), None);
    assert_eq!(text(d(vec![copy(0, 1), insert("x"), copy(1, 2)], 3)), None);
    assert_eq!(text(d(vec![copy(0, 1), insert("x"), insert("y")], 3)), None);
    assert_eq!(text(d(vec![copy(1, 3), insert("x")], 3)), None);
    assert_eq!(text(d(vec![copy(0, 3)], 3)), None);
    assert_eq!(text(d(vec![], 3)), None);
}

#[test]
fn every_deletion_is_followed() {
    let doc = "ab\ncd\n\nef\u{e9}\ng";
    let at: Vec<usize> = (0..=doc.len()).filter(|i| doc.is_char_boundary(*i)).collect();
    for &from in &at {
        for &to in at.iter().filter(|t| **t >= from) {
            for &start in &at {
                for &end in at.iter().filter(|e| **e > start) {
                    let mut c = cache_of(doc, from, to);
                    let new = update(&mut c, doc, &edit(start, end, "", doc.len()));
                    assert_tracks(&c, &new);
                    if from <= start && start < to {
                        assert_eq!(c.offset, from);
                        assert_eq!(c.contents.len(), to - from - (end.min(to) - start));
                    } else {
                        assert_eq!(c.contents, "");
                        assert_eq!(c.offset, 0);
                    }
                }
            }
        }
    }
}

#[test]
fn every_insertion_is_followed() {
    let doc = "ab\ncd\n\nef\u{e9}\ng";
    let at: Vec<usize> = (0..=doc.len()).filter(|i| doc.is_char_boundary(*i)).collect();
    for text in ["x", "\n", "x\ny", "\n\n", "x\n", "\ny", "\u{1f600}"] {
        for &from in &at {
            for &to in at.iter().filter(|t| **t >= from) {
                for &start in &at {
                    let mut c = cache_of(doc, from, to);
                    let new = update(&mut c, doc, &edit(start, start, text, doc.len()));
                    assert_tracks(&c, &new);
                    let kept = from <= start && start < to;
                    assert_eq!(c.contents.len(), if kept { to - from + text.len() } else { 0 });
                }
            }
        }
    }
}

#[test]
fn deleting_a_line_break_joins_lines() {
    let doc = "ab\ncd";
    let mut c = cache_of(doc, 0, 5);
    let new = update(&mut c, doc, &edit(2, 3, "", 5));
    assert_eq!(c.contents, "abcd");
    assert!(c.line_offsets.is_empty());
    assert_eq!(c.get_line(&Doc(new), 0).ok(), Some("abcd"));

    let doc = "ab\ncd\nef";
    let mut c = cache_of(doc, 0, 8);
    update(&mut c, doc, &edit(4, 6, "", 8));
    assert_eq!(c.contents, "ab\ncef");
    assert_eq!(c.line_offsets, vec![3]);

    let mut c = cache_of(doc, 0, 8);
    update(&mut c, doc, &edit(3, 6, "", 8));
    assert_eq!(c.contents, "ab\nef");
    assert_eq!(c.line_offsets, vec![3]);
}

#[test]
fn a_deletion_may_reach_past_the_chunk() {
    let doc = "ab\ncd\nef";
    let mut c = cache_of(doc, 0, 5);
    update(&mut c, doc, &edit(1, 7, "", 8));
    assert_eq!(c.contents, "a");
    assert!(c.line_offsets.is_empty());
    assert_eq!(c.get_line(&Doc("af".into()), 0).ok(), Some("af"));
}

#[test]
fn complex_edits_clear_the_chunk() {
    let doc = "ab\ncd\nef";
    for els in [
        vec![copy(0, 2), insert("x"), copy(3, 8)],
        vec![copy(0, 1), copy(2, 3), copy(4, 8)],
        vec![copy(0, 1), insert("x"), copy(1, 3), insert("y"), copy(3, 8)],
        vec![copy(0, 8)],
    ] {
        let mut c = cache_of(doc, 0, 8);
        let new = update(&mut c, doc, &Delta { els, base_len: 8 });
        assert_eq!(c.contents, "");
        assert_tracks(&c, &new);
        let first = new.split_inclusive('\n').next();
        assert_eq!(c.get_line(&Doc(new.clone()), 0).ok(), first);
    }
}

#[test]
fn an_update_without_delta_clears_the_chunk() {
    let mut c = cache_of("ab\ncd", 3, 5);
    c.apply_update(9, 4, 8, None);
    assert_eq!(c.contents, "");
    assert!(c.line_offsets.is_empty());
    assert_eq!((c.offset, c.first_line, c.first_line_offset), (0, 0, 0));
    assert_eq!((c.buf_size, c.num_lines, c.rev), (9, 4, 8));
}

#[test]
fn deciding_to_clear_changes_nothing() {
    let doc = "ab\ncd\nef";
    let mut c = cache_of(doc, 3, 6);
    let before = format!("{:?}", c);
    assert!(c.should_clear(&edit(2, 2, "x", 8)));
    assert!(c.should_clear(&edit(6, 6, "x", 8)));
    assert!(c.should_clear(&edit(4, 5, "x", 8)));
    assert_eq!(format!("{:?}", c), before);
    assert!(!c.should_clear(&edit(3, 3, "x\n", 8)));
    assert_eq!(c.contents, "cd\n");
    assert_eq!(c.line_offsets, vec![2, 5]);
    assert!(!cache_of(doc, 3, 6).should_clear(&edit(4, 6, "", 8)));
}

#[test]
fn any_edit_can_be_merged() {
    let doc = "0123456789";
    let merged = |els| {
        let mut c = cache_of(doc, 4, 7);
        c.update_chunk(&Delta { els, base_len: 10 });
        (c.offset, c.contents)
    };
    let is = |offset: usize, text: &str| (offset, text.to_string());
    // as it is
    assert_eq!(merged(vec![copy(0, 10)]), is(4, "456"));
    // deletions and insertions before the chunk move it
    assert_eq!(merged(vec![copy(0, 1), copy(3, 10)]), is(2, "456"));
    assert_eq!(merged(vec![copy(0, 1), insert("xyz"), copy(1, 10)]), is(7, "456"));
    assert_eq!(merged(vec![insert("ab"), copy(1, 10)]), is(5, "456"));
    // a deletion across its start
    assert_eq!(merged(vec![copy(0, 2), insert("x"), copy(5, 10)]), is(3, "56"));
    // insertions in it and at both its ends belong to it
    assert_eq!(
        merged(vec![copy(0, 4), insert("a"), copy(4, 6), insert("b"), copy(6, 7), insert("c")]),
        is(4, "a45b6c")
    );
    // past it nothing does
    assert_eq!(merged(vec![copy(0, 9), insert("x"), copy(9, 10)]), is(4, "456"));
    // a deletion across its end
    assert_eq!(merged(vec![copy(0, 5), copy(8, 10)]), is(4, "4"));
    // all of it
    assert_eq!(merged(vec![copy(0, 2), copy(9, 10)]), is(4, ""));
    assert_eq!(merged(vec![]), is(4, ""));
}

#[test]
fn merged_chunks_stand_in_the_edited_document() {
    let doc = "0123456";
    let n = doc.len();
    for a in 0..=n {
        for b in a..=n {
            for s in b..=n {
                for t in s..=n {
                    let els = vec![copy(0, a), insert("x"), copy(b, s), insert("yz"), copy(t, n)];
                    let new = format!("{}x{}yz{}", &doc[..a], &doc[b..s], &doc[t..]);
                    for from in 0..=n {
                        for to in from..=n {
                            let meets = |beg: usize, end: usize| end >= from && beg <= to;
                            if !meets(0, a) && !meets(b, s) && !meets(t, n) {
                                continue;
                            }
                            let mut c = cache_of(doc, from, to);
                            c.update_chunk(&Delta { els: els.clone(), base_len: n });
                            let end = c.offset + c.contents.len();
                            assert_eq!(c.contents, new[c.offset..end]);
                            // every digit of the chunk that is copied is still in it, in order
                            let digits: String =
                                c.contents.chars().filter(|d| d.is_ascii_digit()).collect();
                            let copied: String = doc[from..to]
                                .chars()
                                .filter(|d| new.contains(*d))
                                .collect();
                            assert_eq!(digits, copied);
                        }
                    }
                }
            }
        }
    }
}

#[test]
fn deleting_what_was_inserted_undoes_it() {
    let doc = "ab\ncd\n\nef\u{e9}\ng";
    let at: Vec<usize> = (0..=doc.len()).filter(|i| doc.is_char_boundary(*i)).collect();
    for text in ["x", "\n", "x\ny", "\n\n", "\u{1f600}\n"] {
        for &from in &at {
            for &to in at.iter().filter(|t| **t > from) {
                for &start in at.iter().filter(|s| from <= **s && **s < to) {
                    let mut c = cache_of(doc, from, to);
                    c.rev = 3;
                    let before = format!("{:?}", c);
                    let new = update(&mut c, doc, &edit(start, start, text, doc.len()));
                    let end = start + text.len();
                    let last = update(&mut c, &new, &edit(start, end, "", new.len()));
                    assert_eq!(last, doc);
                    assert_eq!(format!("{:?}", c), before);
                }
            }
        }
    }
}

#[test]
fn lines_after_edits_are_those_of_the_edited_document() {
    let mut doc = "first\nsecond\nthird\n".to_string();
    let mut c = cache_of(&doc, 6, doc.len());
    for (start, end, text) in [(8, 8, "x\ny"), (6, 9, ""), (7, 7, "\n"), (12, 16, ""), (0, 2, "")] {
        doc = update(&mut c, &doc.clone(), &edit(start, end, text, doc.len()));
        let source = Doc(doc.clone());
        for (i, line) in doc.split_inclusive('\n').enumerate() {
            let mut copy = c.clone();
            assert_eq!(copy.get_line(&source, i).ok(), Some(line));
            assert_tracks(&copy, &doc);
        }
        let mut at = 0;
        for (i, line) in doc.split_inclusive('\n').enumerate() {
            assert_eq!(c.clone().offset_of_line(&source, i).ok(), Some(at));
            at += line.len();
        }
        c.get_line(&source, 1).ok();
    }
}
