//! Small decisions of the HTTP services: query limits and error messages.
use vstd::prelude::*;
use vstd::string::*;

verus! {

/// Rows returned by a readings or metrics query that names no limit.
pub const DEFAULT_LIMIT: i64 = 1000;

/// Most rows a readings or metrics query returns.
pub const MAX_LIMIT: i64 = 10000;

/// Rows of location history returned for a station.
pub const LOCATION_HISTORY_LIMIT: i64 = 500;

/// The row limit of a query: the requested one, or the default when none
/// is given, but never more than the maximum.
pub fn effective_limit(requested: Option<i64>) -> (limit: i64)
    ensures
        limit <= MAX_LIMIT,
        limit == (match requested {
            Some(n) => if n <= MAX_LIMIT {
                n
            } else {
                MAX_LIMIT
            },
            None => DEFAULT_LIMIT,
        }),
{
    let n = match requested {
        Some(n) => n,
        None => DEFAULT_LIMIT,
    };
    if n <= MAX_LIMIT {
        n
    } else {
        MAX_LIMIT
    }
}

/// The message returned when a storage step fails: the step, `": "`, and
/// the failure's own description.
pub fn db_error_message(step: &str, detail: &str) -> (msg: String)
    ensures
        msg@ == step@ + ": "@ + detail@,
{
    let mut msg = step.to_owned();
    msg.append(": ");
    msg.append(detail);
    msg
}

/// The log file of a program: `/var/tmp/<name>.log`, with `unknown_process`
/// when the name cannot be found.
pub fn log_file_path(program_name: Option<&str>) -> (path: String)
    ensures
        path@ == "/var/tmp/"@ + (match program_name {
            Some(name) => name@,
            None => "unknown_process"@,
        }) + ".log"@,
{
    let name = match program_name {
        Some(name) => name,
        None => "unknown_process",
    };
    let mut path = "/var/tmp/".to_owned();
    path.append(name);
    path.append(".log");
    path
}

/// One log line: the timestamp in square brackets, a space, the message.
pub fn log_line(timestamp: &str, message: &str) -> (line: String)
    ensures
        line@ == "["@ + timestamp@ + "] "@ + message@,
{
    let mut line = "[".to_owned();
    line.append(timestamp);
    line.append("] ");
    line.append(message);
    line
}

} // verus!
