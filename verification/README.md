# shell

A small interactive shell whose logic is verified with Verus.

- `src/` is the verified library: word splitting with quotes and escapes
  (`tokenizer`), parsing into commands with redirects, pipes and `&`
  (`parser`), the builtins and their registry (`builtins`), the job table
  (`jobs`), what becomes of a command's output (`redirect`), how a command is
  run (`executor`), the prefix tree used for tab completion (`trie`) and the
  decisions of the line editor (`readline`). Each public function has a
  contract over a mathematical model (sequences, sets and maps), and the
  laws that tie them together are proof functions in the same modules.
- `app/` is the program around it: the terminal in raw mode, reading keys,
  starting processes, waiting for them on a reaper thread, and reading and
  writing files. It hands the library plain values and acts on what comes
  back.
- `tests/` runs the library on concrete inputs.
