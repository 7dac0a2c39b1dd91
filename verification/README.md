# passlint

Checks the file names of a password store (as kept by `pass` or `passage`)
against the path rules of a `passlint.toml` file.

- `src/` is the verified library: glob and host matching, pattern parsing,
  configuration checks, paths kept as the bytes that were given (joined,
  stripped and split into components as std's `Path` does on Unix), the
  order of paths, the check of each path, and the texts of errors and of
  the report heading, each with its contract; `src/laws.rs` holds the properties
  proved across calls.
- `app/` is the command: it finds and reads `passlint.toml`, parses the
  TOML, walks the store directory, and prints what the library reports.
- `tests/` runs the library on concrete configurations and paths.
