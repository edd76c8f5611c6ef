# feheim

A Homebrew package manager core: it reads the real Homebrew formula index,
installs real bottles into a private prefix (`~/.feheim` by default, or
`FEHEIM_PREFIX`), relocates their placeholder paths, links them into the
prefix, and removes orphaned dependencies.

The decisions are a library verified with Verus; a thin program does the
disk and network work around it.

## Layout

- `src/` — the verified library.
  - `config` — the prefix layout (`Cellar`, kegs, `opt`, cache, records) and
    Unix path joining.
  - `formula` — the formula model, stable versions, bottle lookup by tag.
  - `api` — finding a formula by name.
  - `platform` — the candidate bottle tags of a host.
  - `install` — keg versions, bottle selection and digest checks, link and
    unlink plans.
  - `relocate` — placeholder substitution, Mach-O detection, `otool` output
    parsing, what each keg file needs.
  - `commands` — dependency resolution (dependencies first), requested
    roots, orphan detection, `info` and `list`.
  - `doctor` — the health report.
  - `search` — case-insensitive matching and stable ordering by name.
  - `state` — the record of requested formulae (parse, render, add, remove).
  - `text` — character-level text operations with their meaning as specs.
- `app/` — the command-line program: argument parsing, HTTP, JSON, tar/gzip,
  the filesystem, `otool`/`install_name_tool`/`codesign`, terminal output.
- `tests/` — tests of the library.

Each public proof function named `law_*` states a property that spans calls
or holds of every input, for instance that the install order lists every
dependency before its dependents, that a cleanup leaves no orphan, that the
record of requests reads back what was written, and that unlinking a keg
removes every link that linking created.
