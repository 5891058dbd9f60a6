# lifetime

Owners and borrows in Rust source are marked with `lt!(expr, "label")`. The
analysis reads such a source and reports, per line, the borrows that an
explicit `drop`, the end of a scope or a move into a function would leave
dangling. Every part of the analysis is verified with Verus against a
specification written over sequences of characters.

## Layout

- `src/text.rs`, `src/numbers.rs`: characters, lines, trimming, searching;
  decimal rendering and parsing of line numbers.
- `src/syntax.rs`: statement shapes (`let`, `lt!` assignments, `drop`,
  destructuring, `for`), comments, identifiers.
- `src/joining.rs`: annotations spread over several physical lines are
  joined into one logical line.
- `src/scanner.rs`: the scope state (owners, borrows, depths) and what each
  statement does to it.
- `src/analyzer.rs`: `check_source`, the current analysis; the laws on the
  violations it reports (lines, message shape, order).
- `src/legacy.rs`: the first-generation analysis of the `lifetime` crate;
  it ignores everything from the first `#[cfg(test)]` line on.
- `src/unannotated.rs`: a text without `lt!(` has no violations.
- `src/shift.rs`, `src/quotes.rs`: blank lines in front of a text move every
  violation down by as many lines, and the lines quoted in its message with
  it.
- `src/report.rs`: shifting quoted line numbers, colours, printed lines.
- `src/fixtures.rs`: how the fixture runner judges a fixture, and its report.
- `src/cli.rs`, `src/project.rs`: command-line arguments, module discovery
  and the walk over a crate's module files.
- `app/`: the `cargo lifetime` command and the fixture runners (file and
  directory access, threads, printing).
- `tests/`: the fixture suite and scenarios on concrete sources.

## Collections

- The scanner keeps the depth at which each name was last declared in a
  `Vec<(Vec<char>, usize)>` rather than a `HashMap<String, usize>`. Names
  are compared as character sequences, and vstd gives a `HashMap` whose key
  is a `String` or a `Vec` no specification that lets a lookup be proved:
  calls are accepted but nothing follows about what they return. The list is
  searched from its end, so the latest declaration wins, and its view is a
  `Map` from name to depth.
- The module walk keeps the paths and inline modules it has visited in a
  `Vec<String>` rather than a `HashSet<String>`, for the same reason. Its
  invariant is that no path occurs twice in it, and the walk never hands out
  a path it holds.
