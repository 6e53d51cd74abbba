# ish

An interactive shell, with its logic verified by Verus.

`src/` is the library. It reads no file, starts no process and tells no time: every function takes
what was read and returns what is to be done, under a contract that says exactly what.

- Editing: `line`, `editor`, `session`, `pickers`, `input`, `render`, `term`, `prompt`.
- Command lines: `parse`, `expand`, `math`, `lex`, `lexable`, `rewrite`, `alias`, `exec`, `external`, `job`.
- Commands: `commands`, `builtin`, `ls`, `frecency`, `config`, `startup`.
- Completion: `complete`, `candidates`, `completing`, `path`, `finder`, `fuzzy`.
- History: `history`, `history_log`, `history_cache`, `history_store`, `index`.
- Environments of directories: `denv`, `env_files`, `env_changes`.
- Shared: `text`, `utf8_bytes`, `sort`, `dirs`, `byte_paths`, `error`.

What holds of several functions together is stated by the proof functions whose names start with
`law_`.

Calls into `epsh`, `fxhash` and the standard library that have no specification stand behind small
functions marked `external_body`, each with a comment on what is claimed of the call.

`app/` is the program around the library: the terminal, files, processes, signals and the
evaluator. `tests/` runs the library on concrete values.
