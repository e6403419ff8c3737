# trigpoint

Determinism linting for deterministic-simulation projects, as a verified
library with a thin command-line front end.

Nondeterminism (time, randomness, I/O, threads, subprocesses, environment)
may only enter a system through shim implementations that a simulation build
can replace. The library decides, for Python sources, where sinks are named
outside a granting shim (prod mode) and which sinks are reachable from the
simulation roots through imports (sim mode); for Rust, it holds the
decisions of the MIR call-graph lints, apart from the compiler queries that
feed them.

## Layout

- `src/` — the library, verified with Verus:
  - `syntax`: the parts of a parsed Python module the analysis reads;
  - `parse`: Python source into that syntax, through `ruff_python_parser`;
  - `config`, `sinks`: the `[python]` configuration and the sink database;
  - `resolve`: module mapping, binding tables, star-import merging;
  - `prodcheck`, `simscope`, `analysis`, `diagnostics`: the two modes, the
    import closure, and the reports with their suppression comments;
  - `lint`: target detection, exit status, `DYLINT_RUSTFLAGS`, manifests
    and the location of the analysis cache;
  - `triglint`: the Rust lints' traversal, blessing and report texts;
  - `order`, `text`: sorting and string primitives with exact specifications.
- `tests/` — tests of the library's public interface.
- `app/` — the `trigp` command: argument handling, configuration files,
  the file system, processes and printing.
