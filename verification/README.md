# grep_lite

A small `grep`: it reads a pattern and searches standard input or files for
lines that match it. Patterns know literals, `.`, `\d`, `\w`, character groups
(`[abc]`, `[^abc]`), the anchors `^` and `$`, the quantifiers `+`, `*`, `?` and
`{n}`, `{n,}`, `{n,m}`, alternation in parentheses (`(cat|dog)`) and
backreferences to alternations (`\1`). Flags: `-o` writes only the matched
parts, `--color=always` / `--color=auto` highlights matches, `-r` searches
directories.

## Layout

- `src/` is the library, verified with Verus:
  - `pattern/parser.rs` compiles a pattern text into tokens;
  - `pattern/matcher.rs` matches tokens against a line by backtracking, and
    finds all non-overlapping matches of a line;
  - `pattern_text.rs` searches a line for a pattern given as text;
  - `output.rs` renders what is written for one line;
  - `content.rs` splits a text into lines and searches each of them, and
    finds the first line whose matches would cut a character in two;
  - `args.rs` reads a command line.
- `app/main.rs` is the program around it: it reads the command line, the
  files and standard input, lists directories, and writes the output.
- `tests/` holds the tests.
