# Airlock

Airlock detects exploitable access control gaps in CosmWasm smart contracts: a
write of an attacker-controlled value to authorization-relevant storage that no
check of `info.sender` gates on every path.

The analysis is a pipeline of six stages over the compiler's intermediate
representation of a contract crate.

| Stage | Modules | Result |
| --- | --- | --- |
| 1. Storage inventory | `storage_inventory` | every `cw-storage-plus` constant |
| 2. Entry point and call graph | `cosmwasm`, `call_graph` | what `execute` reaches |
| 3. Sender comparisons | `sender_taint`, `sender_comparisons`, `predicates` | where the sender is compared |
| 4. Auth-storage marking | `auth_storage` | which items those comparisons read |
| 5. Gating summaries | `gating`, `auth_gate`, `taint` | who checks, who is entered checked, who forwards taint |
| 6. Final evaluation | `evaluation` | one finding per write to a marked item |

`pipeline` wires the stages together, `report` and `debug` write the lines,
`driver` decides what an invocation asks for. `mir` holds the representation the
stages read; `dense`, `graph`, `order`, `text`, `writes` and `mir_util` are the
groundwork.

- `src/` is the library, verified with Verus; what each function returns is
  stated in its contract, down to the lines of the report. The proofs rest on a
  few contracts of the standard library that are believed, not proved, all of
  them in `src/text.rs`: `String::push`, `char::is_alphanumeric` with the name
  `unicode_alphanumeric` for its answers beyond ASCII, `char::is_whitespace`, and
  the `Debug` form of a string, `quote`, with the name `debug_quoted`.
- `app/` is the program: it runs the compiler front end, copies its
  representation into a `mir::Program` and prints the report. It builds with the
  compiler's own crates (`rustc_private`).
- `tests/` runs the library on small programs.
