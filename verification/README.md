# sloccrunch

Counts source lines of code under one or more directories and prints the
project total with a per-language breakdown, optionally followed by a nominal
COCOMO II estimate (`--costs`, `--no-costs`, `--salary`).

- `src/` is the verified library:
  - `lines`: physical line counting over bytes;
  - `cli`: the thread-count option and its default;
  - `text`: character-level helpers (substring search, ASCII case folding,
    string order);
  - `language`: deciding a file's language from the candidates that the
    `linguist` crate proposes, its extension and its contents;
  - `project`: per-language totals, their sum, and the report order.
- `app/` is the program: argument parsing, the directory walk, reading files,
  the file-type sniffing of `file_type`, printing, and the floating-point
  COCOMO estimate.
- `tests/` exercises the library on concrete inputs.
