# papyrus_pdf

A library that reads, shows and edits PDF files, written in Verus: every function of `src/` states
what it returns, and Verus proves it.

- **Files**: `lexer`, `parser`, `object`, `writer`, `xref`, `document`, `save`, `crypt`, `filters`,
  `jpeg`, `jpeg_scans`, `jpeg_codes`. Cross-reference tables and streams, object streams, broken
  files, encrypted files, and saving behind the content of a file.
- **Pages**: `page`, `outline`, `content`, `interp`, `canvas`, `image`, `font`, `faces`,
  `face_tables`, `compact`, `compact_numbers`, `cmap`, `widths`, `encoding`, `annots`. A page
  becomes a list of paths, glyphs and images; transforms are kept as lists of steps and worked out
  exactly.
- **Text**: `page_text`, `search`, `selection`.
- **Edits**: `edit`, `form`, `page_edit`, `copying`, `extract`, `appearance`, with undo and redo;
  `session` puts a document, its edits and the page that is looked at together.
- **Signatures**: `signature`, `sign_text`, `cms_parts`.
- **Drawing**: `affine`, `geometry`, `painting`, `render_cache`, `summary`.

Numbers with a point are exact decimals (`number`, `arith`). Lengths and colors of edits are whole
numbers of millionths.

What holds of several functions together is stated by public proof functions, among them:

| Module | What it states |
|---|---|
| `roundtrip`, `literals` | What is written is read back |
| `reopen`, `lasting`, `reading`, `kept` | What was saved is found, and all else is as it was |
| `history` | Undo takes an edit back, redo makes it again |
| `lexer`, `cmap`, `glyph_names` | What is skipped between tokens, when wide and narrow maps agree, what names of glyphs mean |
| `page_order`, `page_save` | What edits do to the order of pages; that the order, the boxes and the turns are saved where all pages hang from one node, and that edits of the order leave them so where the catalog is no page and no page comes twice |
| `copying`, `reach`, `extract`, `new_files` | Copies are faithful, nothing is copied that no page leads to, and a new file has the pages that it was made of |
| `shows`, `page_text`, `selection` | What a page shows, and where its text stands |

Hashes, ciphers, Flate, JPEG, font files and signed messages are left to the crates that do them.
The functions that call these crates are the trusted ones of the library; each says above itself
what it claims of the crate. Images and fonts are looked through before they are handed on, so
that no number in them leads a crate out of its range.

`app/` is a command line and a viewer around the library: files, glyph outlines, and drawing with
the processor or a graphics card.
