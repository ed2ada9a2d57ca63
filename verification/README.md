# pizza-analysis-stconvert (verified)

Simplified/Traditional Chinese conversion (Simplified <-> Traditional,
Taiwan, Hong Kong and Japanese Kanji variants) with dictionary-driven greedy
longest-match lookup, written in Verus.

## Layout

- `src/model.rs` — the mathematical model: a dictionary (`DictModel`) and
  greedy left-to-right conversion over it, with its laws.
- `src/parse.rs` — the dictionary text format (`key:value` per line) as a
  specification, and the verified line parser.
- `src/tables.rs` — building the lookup tables from dictionary text.
- `src/dict.rs` — the lookup tables (packed unified table, phrase groups,
  prefix Bloom filter), their invariant, and the lookups.
- `src/bloom.rs` — FxHash-64 over UTF-8 bytes and the Bloom filter.
- `src/keys.rs` — lexicographic key order and comparison.
- `src/converter.rs` — `STConverter`, `convert`, `convert_to`.
- `src/analysis.rs` — normalizer, tokenizer and token filter.
- `src/config.rs` — `ConvertType` and `ConvertConfig`.
- `src/dict_data.rs` — the built-in dictionaries (a core set of mappings per
  direction; `STConverter::with_dictionary` takes a fuller one as text).
- `app/lib.rs` — integration with the `pizza-engine` analysis framework:
  trait impls, registration, and loading dictionary files.

The main guarantee: for every input, `STConverter::convert` returns exactly
the greedy longest-match conversion of the input under the dictionary the
converter was built from, and the tables built from a dictionary text hold
exactly the mappings that text describes (first occurrence of a key wins).
