# configobj

A reader and writer for the ConfigObj configuration file format, verified
with Verus.

The format is INI-like: sections nest by repeating the brackets (`[[child]]`),
values may be comma-separated lists, and comments are attached to the entries
they precede, so that rewriting a file leaves it looking as it was written.

## Layout

- `src/` is the library. Its functions are verified, but for a few small
  wrappers around std (UTF-8 decoding, paths, I/O errors, `Debug` text and
  `String::push`), marked `external_body`, whose contracts are trusted.
  - `text.rs`: character classes, trimming and searching, over `Seq<char>`.
  - `value.rs`: values (text or lists), their conversions to `bool` and to
    integers.
  - `section.rs`: ordered sections of values and subsections, with comments;
    a type invariant keeps the keys of every section distinct.
  - `parse.rs`: one line at a time: classifying a line, splitting a value
    from its comment, lists, quotes and multi-line values.
  - `reader.rs`: a whole file, line by line, into nested sections.
  - `write.rs`: quoting and the lines written for a config.
  - `config.rs`: the config itself, its options and its text and bytes.
  - `error.rs`: the errors and their messages.
  - `laws.rs`, `rewrite.rs`, `whole.rs`: what writing and reading promise of
    each other, up to a whole config read back from what was written.
- `tests/` runs the library on concrete files and values.
- `app/` holds what stays outside the proofs: reading and writing files, and
  the Python bindings.

Each public function states in its contract what it returns over a model of
its inputs: `Seq<char>` for text, `SectionModel` for a section, `ConfigModel`
for a config, and `parse_spec` and `render` for reading and writing whole
files.
