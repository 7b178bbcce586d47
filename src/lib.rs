//! Session state correlation: frames the tail of hook event logs, reduces
//! event records to one winner per pane, selects stale logs for removal and
//! classifies terminal windows from the result.

pub mod events;
pub mod state;
pub mod tail;
pub mod tmux;
