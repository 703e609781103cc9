# sample_ime

The verified core of a Vietnamese table-based input method (a Text Services
Framework IME), written in Verus.

- `src/keystroke.rs`: which keystrokes the composition processor handles and how.
- `src/strings.rs`: capitalisation, abbreviations of keys, word forms, spacing
  around punctuation.
- `src/parser.rs`: searching `key<TAB>value<TAB>priority` dictionary text.
- `src/engine.rs`, `src/candidates.rs`: the dictionary engine: loading, converting
  typed input (tone keys, typing-key replacements, punctuation spacing) and
  collecting candidate words in offering order.
- `src/engine_laws.rs`: what a loaded dictionary holds, stated over its lines.
- `src/text.rs`, `src/sorted_map.rs`, `src/unicode.rs`: character-sequence models
  of the text operations, string-keyed ordered maps, and the std Unicode
  functions the rest relies on.
- `app/`: reading dictionary files, taking the engine back from the host, and
  the COM identifiers.
