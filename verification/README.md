# locales

The locale toolchain of a desktop application: a compiler that reads the YAML
locale files of a directory, parses the rule conditions and key templates in
them, merges the files of each locale and reports what one locale lacks of the
sections and keys of the others; the operation codes of the runtime
expression format; and the application's theme setting.

The library under `src/` is verified with Verus:

- `parser/tokenizer.rs`: the lexical grammar of expressions as spec functions
  (`lex`), and `TokenStream::tokenize`, proved to produce exactly `lex` of its
  input, with byte-offset spans.
- `parser/expression.rs`: the expression grammar (`parse_tokens`: nesting by
  parentheses, calls, unary operators, then the binary operator levels) and
  `Expression::try_parse` / `Expression::parse`, proved against it; equality
  of expressions up to spans.
- `parser/template.rs`: templates with `{expression}` substitutions and `{{`
  escapes (`parse_template`), and `Template::try_parse` / `Template::parse`.
- `locale_data.rs`: merging named entries (first or last one wins) and the
  report of missing sections and keys across locales.
- `yaml.rs`, `locale_entries.rs`: a locale file's YAML document (read by
  `serde_yaml` behind one trusted wrapper), the rules and sections taken from
  it, and the entries of a locale gathered over its files, last one winning.
- `parser/joining.rs`: texts joined by a space tokenize as both token lists.
- `parser/float.rs`: the number that a float literal's text denotes, stated
  with integers, and equality of float literals by that number.
- `locale_files.rs`: which files of a locales directory hold which locale.
- `ops.rs`, `theme.rs`, `span.rs`, `text.rs`: operation and theme codes,
  source spans, and UTF-8 byte offsets.

`app/` is the command line around it: directory and file reading, the
deserialisation of parsed locales, the thread pool, logging, the runtime values (which compute
on `f64`) and the serde forms of the library's types.
