//! The account switcher's core: the ledger of model rate limits, the hooks that feed it, the
//! history of command-line account switches, and the copying of sessions between accounts.

pub mod text;
pub mod json;
pub mod order;
pub mod table;
pub mod clock;
pub mod search;
pub mod log_line;
pub mod limits;
pub mod limit_events;
pub mod variant;
pub mod limit_report;
pub mod path;
pub mod cli_switch_history;
pub mod rate_limit_events;
pub mod rate_limit_hook;
pub mod hook_plan;
pub mod session;
pub mod session_link;
pub mod session_files;
pub mod session_recovery;
pub mod session_copy;
pub mod copy_request;
pub mod session_world;
pub mod session_retry;
pub mod session_waiting;
pub mod switch;
