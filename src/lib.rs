//! Command resolution and problem selection for a competitive-programming chat bot.

pub mod api;
pub mod codeforces;
pub mod command;
pub mod draw;
pub mod error;
pub mod leaderboard;
pub mod omegaup;
pub mod text;
pub mod uva;
