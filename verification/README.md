# homelab_core

The core of a homelab orchestrator for a Proxmox host: the operations that
deploy, update, back up, restore, resize and destroy container stacks, and
the judgements behind the nightly fleet check, written in Verus with their
contracts proved.

## Layout

- `src/` — the library, verified by Verus.
  - `executor.rs` — the `Executor` trait every operation reaches the machine
    through. Its spec functions `requests()` and `replies()` are the record
    of what was asked and what came back; operation contracts are stated
    over that record (`extends`, `ended_on_failure`, the plans each
    operation follows).
  - `runner.rs`, `sink.rs` — step bookkeeping, the journal, and the report
    an operation returns.
  - `manifest.rs`, `native.rs`, `state.rs`, `safety.rs` — stack files,
    native service manifests, the host's recorded state, and the safety
    gates.
  - `ops/` — one module per operation or judgement (`backup`, `update`,
    `fleetcheck`, `facts`, `zfs`, `native`, ...). Laws that relate several
    calls stand there as public proof functions named `law_*`.
  - `text.rs`, `order.rs`, `keyed.rs` — string, ordering and keyed-list
    helpers with their specifications.
- `tests/` — tests that run the library against `MockExecutor`.
- `app/` — the host side that the library leaves out: file and process
  access, serde copies of the library's types, and the operations' drivers.

## Checking

Verus verifies `src/`; the tests run with the outside crates linked.
