# aozoraepub3_to_azw3

A Verus library of the pieces of a converter from AozoraEpub3-generated
EPUB files to KF8-only AZW3 files, with a command-line program that opens
and checks an EPUB.

The library holds the EPUB package reading and its checks, the loading of
the manifest's resources, the discovery of the spine's reading order and
content documents and of their root writing modes, the resources of
inline stylesheets, the choice and merge of the navigation sources, the
assembly of the book, the content document checks, the scan of a
document's stylesheet inputs, the Kindle
normalization of a book, the text records, the SKEL, FRAG, DIV, FDST and
guide indexes, the record layout, the EXTH records and PalmDOC header of
record 0, and the KF8 record encoders. It does not produce a complete AZW3
file: the semantic parse of content documents, the CSS validation and
the naming of inline stylesheets, the navigation parsing and href
canonicalization, the selection of the active stylesheets, the
RawML and position mapping, the NCX index and indexing TBS, the RESC and
FLIS records, the MOBI header and the PalmDB container are not part of this
code base; the functions that need them take their results as arguments.
The command-line program therefore reads, opens and checks an EPUB (package,
resources, content documents and fixed-page viewports), and then reports
that record assembly is not available; it writes no output file.

## Layout

- `src/` — the verified library.
  - `epub/` — the EPUB archive and package document (`opf`, `package`),
    stylesheet parsing (`css`) and the checks on content documents
    (`xhtml`: encodings, scripting, media, MathML, `srcset`, objects,
    writing modes, stylesheet inputs).
  - `xml.rs` — XML events of `quick_xml` as plain values.
  - `book/` — the semantic book: metadata, reading order, navigation,
    content documents, resources, layout and stylesheets.
  - `kindle/` — the Kindle model and the normalization of a book into it:
    CSS projection, cover links, navigation pruning, the synthetic table of
    contents, landmarks, cover thumbnails.
  - `kf8/` — KF8 record encoders: PalmDOC text records and compression,
    INDX/CTOC, EXTH, FDST, FCIS, SKEL, FRAG, trailing bytes, CSS flows, and
    the building of the text records, of the SKEL, FRAG, DIV, FDST and
    guide indexes and of the record layout, and the EXTH records and
    PalmDOC header of record 0.
  - `xhtml/` — path handling and byte-level tag scanning.
  - `cli.rs` — what the command-line arguments ask for.
- `tests/` — tests of the library on concrete inputs.
- `app/` — the command-line program: argument reading, file input,
  error reporting, and the one floating-point test of the viewport check
  (whether a dimension is a positive finite number), whose answers the
  library's viewport check takes; the library finds the viewport
  declarations and the spine's content documents.

Every function in `src/` carries a contract that Verus proves; calls into
`image`, `quick_xml`, `zip` and a few `std` functions go through trusted
items whose contracts state what their documentation promises.
