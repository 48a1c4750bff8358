//! Shell history ingestion and analytics.

pub mod analytics;
pub mod cli;
pub mod models;
pub mod normalize;
pub mod parser;
pub mod query;
pub mod ranking;
pub mod session;
pub mod shell;
pub mod text;
pub mod time;

pub use analytics::{
    danger_pattern, danger_patterns, density_symbol, directory_attribution, flag_dangerous,
    heatmap_stats, per_directory_stats, per_host_stats, suggest_aliases, time_of_day_stats,
    top_commands, AliasSuggestion, DangerFlag,
};
pub use cli::CliArgs;
pub use models::{HistoryEntry, Session};
pub use normalize::normalize;
pub use parser::{
    infer_timestamps, parse_heist_live_history, parse_history, read_history, LIVE_TIME_FORMAT,
};
pub use query::{select_entries, Query, QueryError};
pub use ranking::rank_counts;
pub use session::{build_sessions, group_sessions};
pub use shell::{detect_shell, HistoryFormat, ShellType};
pub use time::Stamp;
