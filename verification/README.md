# easyenv

easyenv loads a directory's `.env` file into your shell when you `cd` into
it and unloads it when you leave. Parent directories' `.env` files merge in,
the closest one winning on conflicting keys, and a compiled-in denylist
keeps a `.env` from setting names that would run code or redirect trust.

The library under `src/` is written in Verus: each function carries a
contract, and the properties the tool promises are stated and proved as
proof functions named `law_*`:

- `config` -- the denylist and skip-list engine and config-file loading
  (`allow`/`unskip` always win; the config file only adds; a malformed
  file fails closed to the compiled-in lists).
- `discover` -- the walk from the working directory up to the root,
  naming the candidate `.env` files root first.
- `dotenv`, `merge` -- parsing one `.env` file, and layering files with
  closer ones overriding farther ones.
- `diff`, `keymap`, `state` -- the diff against what easyenv previously
  set, the remembered prior values, and the `EASYENV_STATE` token.
- `fastpath` -- the signature that lets an unchanged prompt skip all work.
- `shell` -- POSIX quoting (proved to read back exactly), the statements
  that apply a diff, and the bash/zsh hook scripts.
- `export` -- the decisions of one `export` or `status` invocation,
  including the capped warning output.

`app/` is the command-line binary around it: argument parsing, reading
files and the environment, and printing. `tests/` exercises the library
on concrete values.
