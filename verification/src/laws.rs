//! What the library is for, in plain terms: how what it gives relates to what it was given.

pub mod append;
pub mod blocks;
pub mod calls;
pub mod codec;
pub mod coders;
pub mod entries;
pub mod format;
pub mod header;
pub mod layout;
pub mod options;
pub mod sources;
