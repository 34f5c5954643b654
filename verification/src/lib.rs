//! Answers "what are a country's nearest game releases?" from a per-country
//! table of releases: loads the table, brings its free-text release dates into
//! one comparable form, ranks and filters the rows, and renders a listing.
//!
//! The way through the library, from the stored text to the reply:
//!
//! - [`loader`] decides which keys name a table and what loading gives for a
//!   key and the text kept for it; [`table`] reads that text into rows and
//!   makes the releases out of them.
//! - [`normalize`] turns a raw release date into a [`date::CanonicalDate`],
//!   and into the sentinel where no layout reads it.
//! - [`query`] answers a query on a table: the rows with a date, ranked by
//!   [`ranking`] from the most recent release down, filtered against a
//!   reference date, the first few of them.
//! - [`render`] writes an answer as text, and [`commands`] puts these together
//!   into the replies to the commands of the bot.
//!
//! Every function states what it returns over the plain values that the rows
//! and texts hold ([`records`], [`text`]); reading the file of a table is left
//! to the caller.

pub mod commands;
pub mod date;
pub mod loader;
pub mod normalize;
pub mod query;
pub mod ranking;
pub mod records;
pub mod render;
pub mod table;
pub mod text;
