# chunk_cache

A cache for an editor plugin that works on a document it does not own. The cache holds one
contiguous chunk of the document and the offsets of the lines in it. It gives out lines and line
offsets, fetches from a `DataSource` what it does not hold, and follows edits of the document
without fetching the text again where it can.

Every function of the library is verified with Verus. The one thing taken on trust is what
`memchr::memchr` returns.

## Layout

- `cache`: `ChunkCache`, the cache itself.
- `source`: the `DataSource` trait, which users of the cache implement, and its answers.
- `delta`: edits of a document.
- `chunk`: the state of a cache as a mathematical value, and what each operation makes of it.
- `lookup`: which requests a lookup makes, and what comes of the answers.
- `document`: what it means for a cache to track a document, and for a source to serve one.
- `merging`: what an edit of any shape makes of a chunk, as a piece of the edited document.
- `laws`: what holds of lookups and updates of a cache that tracks a document.
- `text`, `encoding`, `offsets`: lines by byte offset, UTF-8, and lists of offsets.

## Reading the contracts

`get_line` and `offset_of_line` are specified against any source: `line_found` and `offset_found`
say which requests are made, in which order, and what each run of answers leads to. Their
preconditions, `can_search` and `can_locate`, leave out sources whose answers never get to the
line. `line_lookup_goes_through` and `offset_lookup_goes_through` show that a source which serves
the tracked document meets them (for the line after the last one, `can_search` also wants the
source not to answer a request for what follows the end of the document).
`line_lookup_gives_line` and `offset_lookup_gives_offset` show that the lookup then gives that
line, and its offset, of the document.
