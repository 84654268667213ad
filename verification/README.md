# light_epub

A verified EPUB reader. It checks the OCF header of an EPUB archive, reads the ZIP
central directory itself, returns stored files borrowed from the archive's bytes and
inflates DEFLATE files (into a new vector, or into a caller's scratch buffer), reads
the package document (title, author, spine, table of contents, cover) and builds the
table of contents from an EPUB 2 NCX or an EPUB 3 navigation document.

Every function of the library states what it returns in `requires` / `ensures`
contracts over mathematical models (`Seq`, `Option`, spec functions), and Verus proves
them. Decompression is done by `miniz_oxide` and XML tokenising by `quick_xml`; the
contracts of those calls are the trusted part of the library, each stated beside the
wrapper that makes the call.

## Layout

- `src/bytes.rs`: byte-string searches and little-endian reads.
- `src/central_directory.rs`: the ZIP records (central-directory headers, the end
  record, local headers).
- `src/inflate.rs`: the calls into `miniz_oxide`.
- `src/text.rs`: UTF-8 decoding, entity unescaping and trimming of XML text.
- `src/xml.rs`: XML events as plain values, read through `quick_xml`.
- `src/ocf.rs`: the OCF container: header check, file lookup, content reads.
- `src/opf.rs`: path resolution and the package document.
- `src/nav.rs`: the table of contents.
- `src/book.rs`: `Book`, the public entry point.
- `src/errors.rs`: `EpubError`.
- `tests/`: tests that build small archives and check the library on them.
- `app/`: serialisable copies of the package and table-of-contents types, and
  `Display` for errors.

Properties that relate several calls are stated and proved as `lemma_*` proof
functions next to the code they speak of, or in the contracts themselves:

- a cached central-directory location gives the same reads as a fresh lookup, and a
  lookup given only one of offset and count reads both from the end record;
- a read into a scratch buffer that can hold the file (by the sizes in its directory
  header) gives the same bytes as a read without one, stored or DEFLATE;
- wherever both succeed, the metadata fast path gives the same package as opening the
  whole book, without the spine (and it succeeds wherever the book opens with a title);
- a resolved path is in normal form, resolves to itself (against a base with no
  directory part) in any buffer that can hold it,
  depends on the base only through its directory part, and a resource read relative to
  a chapter is the read of its resolved path;
- every table-of-contents entry points into the spine (or to position 0).
