# portkill

Find and kill whatever is squatting on a port: `portkill 8080` shows the
processes on port 8080 and signals them; `portkill` alone opens a terminal
browser over every listening port.

## Layout

- `src/` — the verified library.
  - `fuzzy.rs` — the subsequence matcher that ranks rows against the filter.
  - `ports.rs` — which sockets are listed, once each, in port-then-process order.
  - `process.rs` — reading `/proc/<pid>/status`, and byte counts for display.
  - `kill.rs` — the guardrails around signalling, and failure messages.
  - `cli.rs` — direct mode's plan, exit codes, table and prompts.
  - `tui.rs` — the browser as a state machine from key presses to actions.
  - `text.rs` — character and string helpers.
- `app/` — the program: argument parsing, the socket table (`netstat2`),
  process lookups and `kill(2)` (`libc`), and the terminal (`ratatui`).
- `tests/` — tests of the library.
