# keytao_checker

Checks for the code tables of the KeyTao (键道) input scheme for RIME, as a
library whose behaviour is stated in `requires` / `ensures` contracts and
proved by Verus.

Usage of the program in `app/`:

```text
keytao-dict-checker -s <单字码表>
keytao-dict-checker -p <词组码表>
keytao-dict-checker <单字码表> <词组码表>
```

With a table of single characters alone it runs seven checks, with a table of
phrases alone three, with both twelve. Reports go to standard output, errors to
standard error; the exit code tells only whether the run completed.

## Layout

- `src/entry.rs`, `src/reader.rs`: entries and the reading of a table (YAML
  header, then one `text<TAB>code[<TAB>weight]` line per entry).
- `src/checks/`: one module per check; each `check` returns the entries or
  codes it reports, with a contract that says exactly which.
- `src/report.rs`, `src/findings.rs`: the sections of a report.
- `src/keytao.rs`, `src/keys.rs`, `src/stems.rs`, `src/alternate.rs`: the
  coding scheme, code numbers, stems and fly-key alternatives.
- `src/hashing.rs`, `src/order.rs`: the hash maps and sorts of outside crates
  and of std, behind trusted wrappers whose contracts name what they hold.
- `src/chains.rs`, `src/groups.rs`, `src/codesets.rs`, `src/shapes.rs`:
  runs of entries of one character, code counts and sets, shape parts of
  codes, shared by several checks.
- `src/text.rs`, `src/cli.rs`: white space, trimming and decimals; the
  command line.
- `src/guards.rs`: tests that tell whether a check's `requires` holds of a
  table, for callers outside Verus.
- `src/laws.rs`: properties across functions.
- `app/main.rs`: argument handling, file reading and printing.
