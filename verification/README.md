# memoire

The core of a writing app, verified with Verus: the version history of each
writing, the passages a note is indexed by, search and replace, importing
Word, Scrivener and RTF files, and exporting books as Markdown, Typst (for
PDF), HTML and Word.

- `src/` is the library. Every function has a contract that Verus proves;
  the calls into outside crates (pulldown-cmark, quick-xml, regex, sha2,
  hex, serde_json, uuid, dirs) stand behind small trusted wrappers whose doc
  comments say what is assumed of them.
- `tests/` runs the library on concrete inputs.
- `app/` is a command line around it: the configuration file, the writing
  folder on disk, writing `.docx` files with docx-rs, and printing results.
