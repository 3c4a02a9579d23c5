# pdxscript-lsp

A language server for Paradox script files (Victoria 3 mods), built around a
library verified with Verus.

## Layout

- `src/` — the verified library. Each module states its results as contracts
  over mathematical models (sequences of characters and lines) and proves them:
  - `format`, `fold`, `symbols`, `references`, `semantic`, `completions`,
    `hover`, `editor`, `inline`, `call_hierarchy`, `demorgan`, `validate`,
    `wiki` — the analyses behind the editor features;
  - `requests` — which answer a completion or a hover request gets;
  - `text`, `order`, `model` — characters, lines, byte columns, the order of
    strings, and the plain values the analyses produce.
  Laws that relate several calls are public proof functions, for example
  `format::formatted_text_is_stable`,
  `format::formatted_document_is_accepted_again`, `references::rename_groups_are_the_files`,
  `references::every_reference_is_renamed`,
  `completions::mod_definitions_take_precedence`,
  `fold::folds_span_several_lines`, `semantic::semantic_tokens_decode` and
  `wiki::scripted_page_is_directory_page`.
- `tests/` — tests of the library on concrete inputs.
- `app/` — the server itself: the editor protocol (tower-lsp), the file system
  walks, the game directory lookup, the validator calls, and the color
  features, whose floating-point components stay outside the library.
