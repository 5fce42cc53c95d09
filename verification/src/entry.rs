use vstd::prelude::*;
use vstd::string::StrSliceExecFns;
use crate::date::LocalDate;

verus! {

/// An instant as seconds and subsecond nanoseconds relative to the Unix epoch.
#[derive(Clone, Copy, PartialEq, Eq, Structural, Debug)]
pub struct Timestamp {
    pub secs: i64,
    pub nanos: u32,
}

/// One directory entry as the filesystem reports it: its path, its file name
/// (`None` when the path has none or the name is not valid Unicode), whether
/// it is a regular file, and when it was last modified (`None` when the
/// metadata could not be read).
pub struct RawEntry {
    pub path: String,
    pub name: Option<String>,
    pub is_file: bool,
    pub modified: Option<Timestamp>,
}

/// A candidate file: an entry whose metadata was read, with the modification
/// instant flattened to nanoseconds since the Unix epoch and the local
/// calendar date of that instant attached.
pub struct Entry {
    pub path: String,
    pub name: Option<String>,
    pub is_file: bool,
    pub modified: i128,
    pub date: LocalDate,
}

/// A raw instant flattened to nanoseconds since the Unix epoch.
pub open spec fn nanos_key(ts: Timestamp) -> int {
    ts.secs * 1_000_000_000 + ts.nanos
}

/// The signed distance from the Unix epoch, in nanoseconds, that a magnitude
/// of whole seconds and subsecond nanoseconds denotes; `before` says the
/// instant lies before the epoch.
pub open spec fn epoch_offset(before: bool, secs: u64, nanos: u32) -> int {
    if before {
        -(secs * 1_000_000_000 + nanos)
    } else {
        secs * 1_000_000_000 + nanos
    }
}

/// Normalizes a clock's distance from the Unix epoch into a `Timestamp`,
/// borrowing across the second boundary for instants before the epoch.
/// `None` exactly when the magnitude does not fit a signed second count or
/// the nanosecond part is no proper subsecond.
pub fn timestamp_of_epoch_offset(before: bool, secs: u64, nanos: u32) -> (r: Option<Timestamp>)
    ensures
        r.is_some() <==> (secs <= i64::MAX && nanos < 1_000_000_000),
        r matches Some(t) ==> nanos_key(t) == epoch_offset(before, secs, nanos),
        r matches Some(t) ==> t.nanos < 1_000_000_000,
{
    if secs > i64::MAX as u64 || nanos >= 1_000_000_000 {
        return None;
    }
    let s = secs as i64;
    if !before {
        Some(Timestamp { secs: s, nanos })
    } else if nanos == 0 {
        Some(Timestamp { secs: -s, nanos: 0 })
    } else {
        Some(Timestamp { secs: -s - 1, nanos: 1_000_000_000 - nanos })
    }
}

/// A file name marks its entry as hidden when it starts with a period; an
/// entry whose name cannot be read at all is treated as hidden too.
pub open spec fn hidden_name(name: Option<String>) -> bool {
    match name {
        None => true,
        Some(n) => n@.len() > 0 && n@[0] == '.',
    }
}

/// Whether an entry with the given file name is excluded as hidden.
pub fn is_hidden(name: &Option<String>) -> (r: bool)
    ensures
        r == hidden_name(*name),
{
    match name {
        None => true,
        Some(s) => {
            if s.as_str().unicode_len() == 0 {
                false
            } else {
                s.as_str().get_char(0) == '.'
            }
        },
    }
}

} // verus!
