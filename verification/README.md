# finance_manager

The verified core of a local-first personal-finance application for Indian
retail bank statements, written in Verus.

- `src/` is the library. Every function in it carries a contract that Verus
  proves: statement aggregation (`dashboard`), per-import totals and the
  categorization passes over fresh rows (`upload`), the merchant cache
  (`merchant_cache`), what is sent to and read back from the categorizing
  language model (`llm`), its settings (`llm_config`), loans and investments,
  the export's counts, stored-document checks (`stored`), and the text and
  money formats they share (`text`, `money`, `stamps`). Calls into the
  `regex`, `rust_decimal`, `rand` and `time` crates go through small trusted
  wrappers whose contracts are stated next to them.
- `tests/` exercises the library on concrete values.
- `app/` is the Tauri shell around it: commands, encrypted storage, the HTTP
  exchange, the spreadsheet writer, and the floating-point health score.
