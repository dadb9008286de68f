//! A verified parser for Quake-style game-server event logs.
//!
//! The library scans a log text line by line, splits it into match
//! sessions, attributes every kill event to a player or to the
//! environment, and builds a final report with per-match statistics
//! and a global player ranking.

pub mod events;
pub mod laws;
pub mod report;
pub mod table;
pub mod text;

pub use events::clean_player_name;
pub use report::GameStats;
pub use report::LogParser;
pub use report::Report;
