# logprep_core

The rule-matching core of a log pre-processor, verified with Verus: filter
expressions and the Lucene query language they are written in, the rule tree
that matches an event against many rules in one walk, dotted field access on
JSON-like events, and the decisions of processing an event.

## Layout

- `src/` — the verified library.
  - `value.rs`, `text.rs`: the event model (`Value` and its model `Json`) and
    character-level helpers.
  - `field.rs`: dotted field names, reading, popping and writing fields.
  - `render.rs`, `sorted.rs`: JSON and Python-style text of values, templates,
    sorted string lists.
  - `filter/`: expressions and their matching (`expression.rs`), regex and
    wildcard patterns, numbers, ranges, the query parser (`lucene.rs`) and the
    checked constructors (`construct.rs`).
  - `rule/`: negation resolution, segmentation into a disjunctive normal form,
    ordering, existence guards and tags (`parser.rs`), and the rule tree.
  - `processor/`: rule configuration helpers, the key checker and generic adder
    rules, and the run of one event (`run.rs`).
- `tests/` — tests of the library on concrete values.
- `app/` — the Python extension module around the library (pyo3): conversion
  of Python objects, the Python classes and functions, and the floating-point
  work the library takes as plain values.

The laws of the library are public proof functions next to the functions they
speak of, each with the conditions it holds under in its `requires`. For
example, `lemma_segment_into_dnf_matches` (a filter matches exactly when one
of its segments does) holds where segments that the distributive law builds
with equal keys are equal (`distributes`); `lemma_rule_found_iff_filter_matches`
also asks that no segment be empty;
`lemma_add_then_read` holds where the field was missing or `null`.

Other laws: `lemma_plain_dotted_name`, `lemma_keep_write_succeeds`,
`lemma_add_field_law`, `lemma_add_keeps_other_keys`, `lemma_pop_returns_read`,
`lemma_python_slice_range` (in `field.rs`); `lemma_lex_outcome`,
`lemma_lex_fails_only_on_unclosed_literal`, `lemma_plain_string_expr`,
`lemma_range_rejections`, `lemma_bracketed_range` (in `filter/lucene.rs`);
`lemma_canonical_int_order` (in `filter/number.rs`); `lemma_expr_eq_matches`
(in `filter/expression.rs`); `lemma_sorted_list_exists` (in `sorted.rs`);
`lemma_listing_sorted_union` (in `processor/key_checker.rs`);
`lemma_resolve_matches`, `lemma_resolve_idempotent` (in `rule/demorgan.rs`);
`lemma_sorted_segment_order`, `lemma_with_exists_guards`, `lemma_built_finds`
(in `rule/`).
