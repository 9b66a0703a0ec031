# laurus

The lexical index of a search engine, written in Verus: executable Rust whose
behaviour is stated in contracts and proved.

- `src/` is the library.
  - Values and their forms: `data`, `field`, `schema`, `numbers`, `floats`, `text`,
    `datetime`, `type_coercion`, `error`, `message`.
  - Documents: `analysis`, `analyzed`, `parser`.
  - Parts of a segment: `codec`, `bits`, `stored_fields`, `doc_values`, `column`,
    `doc_id_set`, `deletion`, `dictionary`, `norms`, `bkd_tree`, `visitor`.
  - Reading: `posting`, `posting_iterator`, `live_tree`, `segment`, `segment_reader`,
    `reader`, `term_cache`, `query`.
  - Merging: `grouping`, `replay`, `merging`, `merge_engine`, `merge_laws`.
  - Collections and orders: `names`, `sort`, `ids`, `treemap`.
  - Calls into other crates that are not proved: `outside`, `column`, `treemap`,
    `term_cache`, and one in `codec`.
- `app/` holds what works on files and floating point, and the serialized forms.
- `tests/` runs the library.

A floating-point number is handled as its bit pattern. Where a number has to be
computed, the function that needs it takes a function that computes it.
