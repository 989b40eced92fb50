# benchdiff

Statistical benchmark regression detection for Criterion, Go bench,
hyperfine and CSV output, with its decision logic verified by Verus.

## Layout

- `src/` is the verified library. Its functions are proved by Verus
  against their `requires` / `ensures` contracts; the only unproved code is
  a handful of small trusted wrappers around std (reading the system clock,
  `Debug` formatting, `String::push`), whose contracts say no more than
  std's documentation.
  - `parsers/`: format detection, line splitting, the Go bench and CSV
    scanners (including a recognizer for the syntax of decimal float
    literals), the aggregation of observations into benchmarks, and the
    Criterion and hyperfine decisions (which file, which samples, which
    error).
  - `compare.rs`: which benchmarks are compared, missing, new or ignored;
    the verdict of a compared pair; the multiple-comparison correction; the
    order of the report.
  - `stats.rs`: Benjamini-Hochberg step-up selection.
  - `config.rs`, `baseline.rs`, `report.rs`, `cli.rs`: configuration
    checks, glob matching, tolerances, baseline labels and file names,
    UTC timestamps, output formats, exit statuses.
  - `ieee.rs`: doubles travel through the library as their IEEE-754 bit
    patterns; comparisons, finiteness and absolute value are integer
    predicates on those patterns.
- `app/` is the command line tool: argument parsing, file I/O, JSON and
  TOML decoding, the floating-point statistics (means, variances, Welch's
  t-test, Cohen's d) and the rendering of reports.
- `tests/` runs the library on concrete inputs.

Laws proved about the library are the `law_*` proof functions.

Benchmarks are aggregated by name in a `Vec` kept sorted by name, and
tolerances are kept in a `Vec` of name/value pairs, rather than in ordered
or hashed maps keyed by `String`: vstd's specifications of those maps give
no usable facts about `String` keys, while a vector with an explicit
ordering invariant can be reasoned about completely.
