# yuri_rewrite

The rules by which the chapters of a novel are analysed, rewritten and reviewed with the help of
language models, as a library whose contracts are proved with Verus.

- `src/` is the library. Each module begins with what it is about; `lib.rs` lists them by subject.
  A contract says over mathematical values what a function returns, and the functions whose names
  begin with `law_` state what holds of several functions together.
- `tests/` holds examples with concrete values.
- `app/` is the program around the library: the database, the calls of models and the loops that
  wait for them. It hands plain values to the library and takes plain values back.

What comes from other crates is marked `external_body` or `assume_specification`, with a comment
that says what is taken for granted: reading and printing JSON (`serde_json`), regular expressions
(`regex`), the SHA-256 digest (`sha2`), and a few functions of the standard library on characters
and strings.
