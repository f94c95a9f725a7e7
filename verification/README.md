# rtk log

Condenses log output. Lines that report errors or warnings are normalized, clustered and shown
once, with a count; info messages are counted.

- `src/text.rs`: lines, words, trimming, searching, decimal numbers.
- `src/normalize.rs`: timestamps, UUIDs, hexadecimal numbers, numbers and paths give way to
  placeholders. The regular expressions are those of the `regex` crate.
- `src/collect.rs`: which lines report what.
- `src/cluster.rs`: what greedy clustering means, for any relation between lines.
- `src/sketch.rs`: 64-bit line sketches, and clustering by their similarity.
- `src/rank.rs`: clusters in the order of their size.
- `src/report.rs`: the text of the report.
- `src/log_cmd.rs`: the analyses, from raw text to report.
- `src/laws/`: statements about the library as a whole, with their proofs.
- `app/`: reading files and standard input, and the interface with floating-point thresholds.

Everything under `src/` is verified with Verus. What is taken on trust stands under the heading
"Outside functions" of each module.
