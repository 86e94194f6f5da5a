# easyenv

A verified library for managing environment secrets per project: global and
project scopes, dotenv import and export, masking, shell overrides, sharing
encrypted bundles with `age`, and the rules of the lightweight `easyenv-lite`
tool.

- `src/` is the library, written and proved with Verus. Each public function
  carries a contract over mathematical models (`Seq`, `Map`, views).
- `tests/` runs the library on concrete values.
- `app/` is the command-line program around it: argument parsing, the SQLite
  metadata file, the OS keychain and files on disk, JSON output.
