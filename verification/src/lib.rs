//! Ranks the statistics that a game server keeps of its players.
//!
//! Each player has a record, a JSON document in one of two layouts. A query
//! selects fields of a record by name, either the one field of that name or
//! every field whose name holds the query. What the records of all players
//! give is gathered into one bucket per stat key; each bucket is then ranked
//! and rendered as a leaderboard, with the players shown by their display
//! names where the identity table has them.
//!
//! - [`document`] holds the JSON documents, parsed by the `json` crate, and
//!   their model.
//! - [`stat`] and [`decimal`] hold the value of a statistic and the order
//!   of numbers. Numbers are compared by their exact decimal values.
//! - [`reader`] tells the layout of a record and selects its fields.
//! - [`aggregate`] gathers the selections into buckets.
//! - [`ranking`] ranks a bucket and renders the report.
//! - [`identity`] is the table of display names and its three sources.
//! - [`level`] reads the level name and the identifier of a stat file.
//! - [`text`] has the helpers on text that the others share.
//!
//! The library reads no file and prints nothing: it takes the text of each
//! file and gives back the lines of the report.

pub mod aggregate;
pub mod decimal;
pub mod document;
pub mod identity;
pub mod level;
pub mod ranking;
pub mod reader;
pub mod stat;
pub mod text;
