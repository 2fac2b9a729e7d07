//! Size-based rotation of the run log: when the log file is full it becomes
//! `<log>.1`, older backups shift up by one, and only the newest few are kept.
//! The size limit and the number of backups can be overridden by settings.

use vstd::prelude::*;

use crate::text::{chars_of, dec, parse_u64, parse_u64_chars, push_dec, string_from_chars, trim, trim_chars};

verus! {

/// Default size limit of one log file (1 MiB).
pub const LOG_MAX_BYTES: u64 = 1048576;
/// Default number of backups kept.
pub const LOG_KEEP: usize = 3;

/// A numeric setting's value: its trimmed text as a `u64`.
pub open spec fn setting_value(v: Option<Seq<char>>) -> Option<u64> {
    match v {
        Some(t) => parse_u64(trim(t)),
        None => None,
    }
}

fn setting_number(v: Option<&str>) -> (r: Option<u64>)
    ensures
        r == setting_value(
            match v {
                Some(t) => Some(t@),
                None => None,
            },
        ),
{
    match v {
        Some(t) => parse_u64_chars(&trim_chars(&chars_of(t))),
        None => None,
    }
}

/// Size limit from an optional setting in MiB, clamped to 1..=1024 MiB;
/// the default when it is absent or not a number.
pub fn max_bytes(setting: Option<&str>) -> (b: u64)
    ensures
        b == match setting_value(
            match setting {
                Some(t) => Some(t@),
                None => None,
            },
        ) {
            Some(mb) => (if mb < 1 {
                1
            } else if mb > 1024 {
                1024
            } else {
                mb
            }) * 1048576,
            None => LOG_MAX_BYTES as int,
        },
{
    match setting_number(setting) {
        Some(mb) => {
            let m = if mb < 1 {
                1
            } else if mb > 1024 {
                1024
            } else {
                mb
            };
            m * 1048576
        },
        None => LOG_MAX_BYTES,
    }
}

/// Number of backups from an optional setting, at most 16; the default when it
/// is absent or not a number.
pub fn keep_files(setting: Option<&str>) -> (n: usize)
    ensures
        n == match setting_value(
            match setting {
                Some(t) => Some(t@),
                None => None,
            },
        ) {
            Some(k) => if k < 16 {
                k as int
            } else {
                16
            },
            None => LOG_KEEP as int,
        },
{
    match setting_number(setting) {
        Some(k) => if k < 16 {
            k as usize
        } else {
            16
        },
        None => LOG_KEEP,
    }
}

/// Path of the `n`-th backup: `<base>.<n>`.
pub fn backup_path(base: &str, n: usize) -> (p: String)
    ensures
        p@ == base@ + seq!['.'] + dec(n as nat),
{
    let mut out = chars_of(base);
    out.push('.');
    push_dec(&mut out, n as u64);
    string_from_chars(&out)
}

/// One file operation of a rotation. Index 0 names the log file itself, index
/// `n >= 1` its `n`-th backup.
#[derive(Clone, Copy, Debug, PartialEq, Eq, Structural)]
pub enum RotateStep {
    Remove(usize),
    Rename(usize, usize),
}

/// The steps of a rotation keeping `keep` backups: with none kept, the log is
/// deleted; otherwise the oldest backup is deleted, each backup `i` becomes
/// `i + 1` from the oldest down, and the log becomes backup 1.
pub open spec fn rotation(keep: nat) -> Seq<RotateStep> {
    if keep == 0 {
        seq![RotateStep::Remove(0)]
    } else {
        seq![RotateStep::Remove(keep as usize)] + Seq::new(
            (keep - 1) as nat,
            |j: int| RotateStep::Rename((keep - 1 - j) as usize, (keep - j) as usize),
        ) + seq![RotateStep::Rename(0, 1)]
    }
}

/// The file operations of one rotation, in the order they are to be done.
pub fn rotation_steps(keep: usize) -> (steps: Vec<RotateStep>)
    ensures
        steps@ == rotation(keep as nat),
{
    let mut steps: Vec<RotateStep> = Vec::new();
    if keep == 0 {
        steps.push(RotateStep::Remove(0));
        return steps;
    }
    steps.push(RotateStep::Remove(keep));
    let mut i: usize = keep - 1;
    let ghost mid = Seq::new(
        (keep - 1) as nat,
        |j: int| RotateStep::Rename((keep - 1 - j) as usize, (keep - j) as usize),
    );
    while i >= 1
        invariant
            0 <= i < keep,
            steps@ == seq![RotateStep::Remove(keep)] + mid.take(keep - 1 - i),
            mid == Seq::new(
                (keep - 1) as nat,
                |j: int| RotateStep::Rename((keep - 1 - j) as usize, (keep - j) as usize),
            ),
        decreases i,
    {
        steps.push(RotateStep::Rename(i, i + 1));
        proof {
            assert(mid.take(keep - 1 - i + 1) == mid.take(keep - 1 - i).push(mid[keep - 1 - i]));
        }
        i -= 1;
    }
    assert(mid.take(keep - 1) == mid);
    steps.push(RotateStep::Rename(0, 1));
    steps
}

/// Whether a write of `incoming` bytes ending a line (or not) makes the log
/// rotate first: only when it would pass the limit, only at a line end (so one
/// entry is never split across files), and never into an empty file.
pub fn rotate_due(written: u64, incoming: u64, max: u64, ends_line: bool) -> (due: bool)
    ensures
        due == (written + incoming > max && ends_line && written != 0),
{
    if incoming <= max && written <= max - incoming {
        return false;
    }
    if !ends_line {
        return false;
    }
    written != 0
}

/// Whether a log left over from the previous run must rotate at start-up.
pub fn rotate_at_start(size: u64, max: u64) -> (due: bool)
    ensures
        due == (size >= max),
{
    size >= max
}

} // verus!
