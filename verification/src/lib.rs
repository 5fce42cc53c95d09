//! Lists the regular files of one directory, ordered by modification time,
//! newest first, with optional restriction to files modified on the current
//! local calendar date and an optional cap on how many paths come back.
//!
//! The scan itself works on plain snapshot values: the caller enumerates the
//! directory and hands over one record per entry; the library filters out
//! everything that is not a visible regular file, orders what is left by
//! modification time descending, and truncates the listing on request.

pub mod date;
pub mod entry;
pub mod lister;
