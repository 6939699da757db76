# desense

Detection and reversible masking of sensitive data (names, phone numbers, ID
and bank card numbers, e-mail addresses, places, departments, amounts, ...) in
audit documents and spreadsheets, verified with Verus.

Layout:

- `src/` — the verified library.
  - `scanner`: the built-in rules (regular expressions), the custom dictionary
    search and the merge of overlapping findings.
  - `tokenizer`: placeholders `[KIND_n]`, the masking map, restoring and counting.
  - `roundtrip`: the proof that restoring undoes masking, for texts that hold
    none of the placeholders and findings that cannot be mistaken for them.
  - `column_matcher`, `excel`, `txt`, `commands`, `llm`: tables, the kind of each
    column by its name, masking of cells, and what the desktop front end and the
    language model receive.
  - `input`, `docx`, `pdf`, `report`: which reader a file calls for, the text of
    Word documents, what becomes of a PDF extraction, tables as text, and what
    the command line reports.
  - `text`: character-level string functions with exact specifications.
- `tests/` — tests of the library on concrete inputs.
- `app/` — the command line program and the desktop commands: file and network
  I/O, outside converters, argument parsing and JSON.
