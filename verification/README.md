# wb-switch-core

The core of an account switcher for the WorkBuddy and CodeBuddy clients, written in Rust and
verified with Verus.

- `src/limits.rs`, `src/limit_events.rs`, `src/limit_report.rs`: which account's models are
  limited and until when, read from the client's logs.
- `src/rate_limit_hook.rs`, `src/hook_plan.rs`: the hook that clients run at the end of a turn,
  how it gets into their settings and out again.
- `src/rate_limit_events.rs`, `src/cli_switch_history.rs`: what the hooks reported, and whose key
  a process of the command-line client holds.
- `src/session.rs`, `src/session_link.rs`, `src/session_files.rs`: sessions, their rows and
  bodies, and the links between the copies of one session.
- `src/session_copy.rs`, `src/session_recovery.rs`, `src/copy_request.rs`, `src/switch.rs`: state
  machines that say what is due next; `app/` takes the step and reports back.
- `src/session_world.rs`, `src/session_retry.rs`, `src/session_waiting.rs`: a model of the files
  that the steps find and leave, with what holds of requests that follow one another, of copies
  that were broken off, and of copies that wait to be recovered.
- `src/text.rs`, `src/json.rs`, `src/path.rs`, `src/clock.rs`, `src/order.rs`, `src/table.rs`,
  `src/search.rs`, `src/log_line.rs`, `src/variant.rs`: what the rest is built from.

`app/` holds the files, databases, locks and threads around the library, and `tests/` runs the
library on concrete values. What the library takes on trust of other crates is marked
`external_body` or `assume_specification`, each with a comment that says what is claimed.

Proof functions whose names begin with `law_` state what holds of the library as a whole.
