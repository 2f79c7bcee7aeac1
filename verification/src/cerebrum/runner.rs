//! The figures that pace the cerebrum's run: how much memory its cgroup uses
//! and may use, read from the text of the kernel's cgroup files.

use vstd::prelude::*;
use crate::text::{parse_trimmed_u64, parsed_u64, trimmed};

verus! {

/// The usage assumed when no cgroup file gives one: 200 MiB.
pub const DEFAULT_USAGE_BYTES: u64 = 209715200;

/// The limit assumed when no cgroup file gives one, or it gives zero: 2 GiB.
pub const DEFAULT_LIMIT_BYTES: u64 = 2147483648;

/// The text of a file, if it could be read.
pub open spec fn file_text(f: Option<String>) -> Option<Seq<char>> {
    match f {
        Some(t) => Some(t@),
        None => None,
    }
}

/// A figure read from the first file that could be read: its trimmed text
/// as an unsigned decimal, or `default` when that text is no such number.
/// The second file is read only when the first could not be.
pub open spec fn cgroup_figure(first: Option<Seq<char>>, second: Option<Seq<char>>, default: u64) -> u64 {
    let chosen = if first is Some { first } else { second };
    match chosen {
        Some(t) => match parsed_u64(trimmed(t)) {
            Some(v) => v,
            None => default,
        },
        None => default,
    }
}

/// The limit as used: a figure of zero stands for no limit given.
pub open spec fn usable_limit(figure: u64) -> u64 {
    if figure == 0 {
        DEFAULT_LIMIT_BYTES
    } else {
        figure
    }
}

fn figure_from(first: &Option<String>, second: &Option<String>, default: u64) -> (r: u64)
    ensures
        r == cgroup_figure(file_text(*first), file_text(*second), default),
{
    let chosen = match first {
        Some(_) => first,
        None => second,
    };
    match chosen {
        Some(t) => match parse_trimmed_u64(t.as_str()) {
            Some(v) => v,
            None => default,
        },
        None => default,
    }
}

/// The cgroup's memory usage and limit in bytes, from the texts of the
/// cgroup v2 files (`memory.current`, `memory.max`) and, where those could
/// not be read, of the v1 files (`memory.usage_in_bytes`,
/// `memory.limit_in_bytes`).
pub fn cgroup_memory(
    usage_v2: Option<String>,
    usage_v1: Option<String>,
    limit_v2: Option<String>,
    limit_v1: Option<String>,
) -> (r: (u64, u64))
    ensures
        r.0 == cgroup_figure(file_text(usage_v2), file_text(usage_v1), DEFAULT_USAGE_BYTES),
        r.1 == usable_limit(cgroup_figure(file_text(limit_v2), file_text(limit_v1), DEFAULT_LIMIT_BYTES)),
        r.1 > 0,
{
    let usage = figure_from(&usage_v2, &usage_v1, DEFAULT_USAGE_BYTES);
    let mut limit = figure_from(&limit_v2, &limit_v1, DEFAULT_LIMIT_BYTES);
    if limit == 0 {
        limit = DEFAULT_LIMIT_BYTES;
    }
    (usage, limit)
}

} // verus!
