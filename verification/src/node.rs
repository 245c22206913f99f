//! How a node is started and how its metrics are served.
use crate::decimal::{parse_decimal, to_decimal};
use crate::ident::WorkerId;
use vstd::prelude::*;
use vstd::string::{StrSliceExecFns, StringExecFns};

verus! {

use crate::decimal::{decimal, parsed};

/// The default period for writing metrics to a file, in milliseconds.
pub const DEFAULT_FLUSH_INTERVAL_MS: u64 = 5_000;

/// How much is logged.
#[derive(Clone, Copy, PartialEq, Eq, Structural, Debug)]
pub enum LogLevel {
    Error,
    Warn,
    Info,
    Debug,
    Trace,
}

/// How much is logged where verbosity was asked for `occurrences` times.
pub open spec fn level_of(occurrences: u64) -> LogLevel {
    if occurrences == 0 {
        LogLevel::Error
    } else if occurrences == 1 {
        LogLevel::Warn
    } else if occurrences == 2 {
        LogLevel::Info
    } else if occurrences == 3 {
        LogLevel::Debug
    } else {
        LogLevel::Trace
    }
}

/// How much is logged where verbosity was asked for `occurrences` times.
pub fn log_level(occurrences: u64) -> (level: LogLevel)
    ensures
        level == level_of(occurrences),
{
    match occurrences {
        0 => LogLevel::Error,
        1 => LogLevel::Warn,
        2 => LogLevel::Info,
        3 => LogLevel::Debug,
        _ => LogLevel::Trace,
    }
}

impl LogLevel {
    /// The name of the level.
    pub open spec fn spec_name(self) -> Seq<char> {
        match self {
            LogLevel::Error => "error"@,
            LogLevel::Warn => "warn"@,
            LogLevel::Info => "info"@,
            LogLevel::Debug => "debug"@,
            LogLevel::Trace => "trace"@,
        }
    }

    /// The name of the level, as the logger knows it.
    pub fn name(self) -> (s: &'static str)
        ensures
            s@ == self.spec_name(),
    {
        match self {
            LogLevel::Error => "error",
            LogLevel::Warn => "warn",
            LogLevel::Info => "info",
            LogLevel::Debug => "debug",
            LogLevel::Trace => "trace",
        }
    }
}

/// The period for writing metrics to a file: what is asked for, where that is a number.
pub fn flush_interval_ms(argument: Option<&str>) -> (ms: u64)
    ensures
        ms == (match argument {
            Some(s) => match parsed(s@, u64::MAX as nat) {
                Some(n) => n as u64,
                None => DEFAULT_FLUSH_INTERVAL_MS,
            },
            None => DEFAULT_FLUSH_INTERVAL_MS,
        }),
{
    match argument {
        Some(s) => match parse_decimal(s, u64::MAX) {
            Some(n) => n,
            None => DEFAULT_FLUSH_INTERVAL_MS,
        },
        None => DEFAULT_FLUSH_INTERVAL_MS,
    }
}

/// The number of the worker that is to run, where `argument` is one.
pub fn worker_id(argument: &str) -> (id: Option<WorkerId>)
    ensures
        id == (match parsed(argument@, u32::MAX as nat) {
            Some(n) => Some(n as u32),
            None => None,
        }),
{
    match parse_decimal(argument, u32::MAX as u64) {
        Some(n) => Some(n as u32),
        None => None,
    }
}

/// What a node runs.
#[derive(Clone, Copy, PartialEq, Eq, Structural, Debug)]
pub enum Role {
    Primary,
    Worker(WorkerId),
}

/// Why a node does not run.
#[derive(Clone, Copy, PartialEq, Eq, Structural, Debug)]
pub enum RoleError {
    /// The worker number is not a number.
    BadWorkerId,
    /// There is nothing of that name to run.
    UnknownRole,
}

/// What a node runs that is told `role`, with `id` for the worker's number.
pub open spec fn role_of(role: Seq<char>, id: Option<Seq<char>>) -> Result<Role, RoleError> {
    if role == "primary"@ {
        Ok(Role::Primary)
    } else if role == "worker"@ && id is Some {
        match parsed(id->0, u32::MAX as nat) {
            Some(n) => Ok(Role::Worker(n as u32)),
            None => Err(RoleError::BadWorkerId),
        }
    } else {
        Err(RoleError::UnknownRole)
    }
}

/// What a node runs that is told `role`, with `id` for the worker's number.
pub fn choose_role(role: &str, id: Option<&str>) -> (r: Result<Role, RoleError>)
    ensures
        r == role_of(
            role@,
            match id {
                Some(s) => Some(s@),
                None => None,
            },
        ),
{
    if same_text(role, "primary") {
        return Ok(Role::Primary);
    }
    if same_text(role, "worker") {
        if let Some(s) = id {
            return match worker_id(s) {
                Some(n) => Ok(Role::Worker(n)),
                None => Err(RoleError::BadWorkerId),
            };
        }
    }
    Err(RoleError::UnknownRole)
}

/// Whether two texts are the same.
fn same_text(a: &str, b: &str) -> (same: bool)
    ensures
        same == (a@ == b@),
{
    let n: usize = a.unicode_len();
    if n != b.unicode_len() {
        return false;
    }
    let mut i: usize = 0;
    while i < n
        invariant
            i <= n,
            n == a@.len(),
            n == b@.len(),
            forall|j: int| 0 <= j < i ==> #[trigger] a@[j] == b@[j],
        decreases n - i,
    {
        if a.get_char(i) != b.get_char(i) {
            return false;
        }
        i += 1;
    }
    assert(a@ =~= b@);
    true
}

/// What an HTTP request is answered with.
#[derive(Clone, Copy, PartialEq, Eq, Structural, Debug)]
pub enum MetricsReply {
    /// The metrics.
    Metrics,
    /// That there is nothing there.
    NotFound,
}

/// What an HTTP request is answered with: the metrics, if it is a `GET` request for them.
pub fn metrics_reply(is_get: bool, path: &str) -> (reply: MetricsReply)
    ensures
        reply == (if is_get && path@ == "/metrics"@ {
            MetricsReply::Metrics
        } else {
            MetricsReply::NotFound
        }),
{
    if is_get && same_text(path, "/metrics") {
        MetricsReply::Metrics
    } else {
        MetricsReply::NotFound
    }
}

/// The name of a metrics file: its stem, the time at which it is written, and its extension.
pub open spec fn file_name(stem: Seq<char>, ts_ms: nat, ext: Seq<char>) -> Seq<char> {
    stem + "-"@ + decimal(ts_ms) + "."@ + ext
}

/// The name of the metrics file that is written at the time `ts_ms`. Without a stem or an extension,
/// the file is named `metrics` or ends in `prom`.
pub fn flush_file_name(stem: Option<&str>, ts_ms: u128, ext: Option<&str>) -> (name: String)
    ensures
        name@ == file_name(
            match stem {
                Some(s) => s@,
                None => "metrics"@,
            },
            ts_ms as nat,
            match ext {
                Some(s) => s@,
                None => "prom"@,
            },
        ),
{
    let stem: &str = match stem {
        Some(s) => s,
        None => "metrics",
    };
    let ext: &str = match ext {
        Some(s) => s,
        None => "prom",
    };
    let mut name = String::from_str(stem);
    name.append("-");
    name.append(to_decimal(ts_ms).as_str());
    name.append(".");
    name.append(ext);
    name
}

/// Verbosity is asked for step by step: each time that it is asked for once more, one kind of message
/// more is logged, until all are.
pub proof fn verbosity_rises_step_by_step(n: u64)
    ensures
        level_of(n) is Error <==> n == 0,
        level_of(n) is Warn <==> n == 1,
        level_of(n) is Info <==> n == 2,
        level_of(n) is Debug <==> n == 3,
        level_of(n) is Trace <==> n >= 4,
{
}

/// A node runs a primary exactly if it is told to, and a worker exactly if it is told to with a number
/// that can be read. A worker's number that cannot be read is one error, and all else the other.
pub proof fn a_node_runs_what_it_is_told_to(role: Seq<char>, id: Option<Seq<char>>)
    ensures
        "primary"@ != "worker"@,
        role_of(role, id) == Ok::<Role, RoleError>(Role::Primary) <==> role == "primary"@,
        role == "worker"@ && id is Some ==> match parsed(id->0, 0xffff_ffff) {
            Some(n) => role_of(role, id) matches Ok(Role::Worker(w)) && w == n,
            None => role_of(role, id) == Err::<Role, RoleError>(RoleError::BadWorkerId),
        },
        role != "primary"@ && !(role == "worker"@ && id is Some) ==> role_of(role, id) == Err::<
            Role,
            RoleError,
        >(RoleError::UnknownRole),
{
    reveal_strlit("primary");
    reveal_strlit("worker");
    assert("primary"@.len() != "worker"@.len());
}

/// The name of a metrics file shows its parts in order.
pub proof fn a_file_name_shows_its_parts(stem: Seq<char>, ts_ms: nat, ext: Seq<char>)
    ensures
        ({
            let name = file_name(stem, ts_ms, ext);
            let k = stem.len() as int;
            let n = decimal(ts_ms).len() as int;
            &&& name.len() == k + 1 + n + 1 + ext.len()
            &&& name.take(k) == stem
            &&& name[k] == '-'
            &&& name.subrange(k + 1, k + 1 + n) == decimal(ts_ms)
            &&& name[k + 1 + n] == '.'
            &&& name.skip(k + 2 + n) == ext
        }),
{
    reveal_strlit("-");
    reveal_strlit(".");
    let name = file_name(stem, ts_ms, ext);
    let k = stem.len() as int;
    let n = decimal(ts_ms).len() as int;
    assert(name.take(k) =~= stem);
    assert(name.subrange(k + 1, k + 1 + n) =~= decimal(ts_ms));
    assert(name.skip(k + 2 + n) =~= ext);
}

} // verus!
