//! Tags and categories for files and folders.
//!
//! What is known of the things in a folder stands in a store beside them: a record of tags, a
//! category and a note for each name. The library decides which things a request is about, how
//! their records change, what is suggested, listed and shown, and where a dialogue goes next. It
//! reads and writes nothing itself: it takes what came of reading, and gives what is to be
//! written or shown.
pub mod order;
pub mod ordered;
pub mod text;
pub mod number;
pub mod error;
pub mod tags;
pub mod label;
pub mod path;
pub mod record;
pub mod store;
pub mod target;
pub mod mutation;
pub mod collect;
pub mod library;
pub mod browse;
pub mod page;
pub mod screens;
pub mod flows;
pub mod menu;
pub mod command;
pub mod launch;
pub mod terminal;
pub mod context;
