//! System and process information, with the fallbacks used when a reading
//! is unavailable.

use vstd::prelude::*;

verus! {

/// One mebibyte in bytes.
pub const MIB: u64 = 1048576;

/// Working-set and peak sizes reported on platforms without a process
/// memory query.
pub open spec fn estimated_process_memory() -> (u64, u64) {
    ((24 * MIB) as u64, (34 * MIB) as u64)
}

/// Working-set and peak sizes reported when the process memory query fails.
pub open spec fn failed_query_process_memory() -> (u64, u64) {
    ((26 * MIB) as u64, (38 * MIB) as u64)
}

/// Memory usage (working set, peak) of the current process on platforms
/// without a process memory query: the fixed estimate of 24 MiB and 34 MiB.
pub fn query_win32_process_memory() -> (r: (u64, u64))
    ensures
        r == estimated_process_memory(),
{
    (24 * MIB, 34 * MIB)
}

/// Memory usage (working set, peak) from the result of the process memory
/// query: its counters when it succeeded, else 26 MiB and 38 MiB.
pub fn process_memory_from_query(reading: Option<(u64, u64)>) -> (r: (u64, u64))
    ensures
        r == match reading {
            Some(counters) => counters,
            None => failed_query_process_memory(),
        },
{
    match reading {
        Some(counters) => counters,
        None => (26 * MIB, 38 * MIB),
    }
}

/// Information about the system and the running process.
pub struct SystemInfo {
    pub os_name: String,
    pub os_family: String,
    pub arch: String,
    pub cpu_cores: usize,
    pub current_dir: String,
    pub temp_dir: String,
    pub executable_path: String,
    pub process_id: u32,
    pub timestamp_epoch_ms: u128,
}

/// The text shown for a path that could not be read.
pub open spec fn unknown_text() -> Seq<char> {
    "Desconhecido"@
}

/// A path as shown: the path itself, or "Desconhecido" when unreadable.
pub open spec fn path_or_unknown(p: Option<String>) -> Seq<char> {
    match p {
        Some(s) => s@,
        None => unknown_text(),
    }
}

fn string_or_unknown(p: Option<String>) -> (s: String)
    ensures
        s@ == path_or_unknown(p),
{
    match p {
        Some(s) => s,
        None => String::from_str("Desconhecido"),
    }
}

impl SystemInfo {
    /// Assembles the system information from the raw readings: one core
    /// when the parallelism is unknown, "Desconhecido" for unreadable
    /// paths, and time 0 when the clock is before the epoch.
    pub fn from_readings(
        os_name: String,
        os_family: String,
        arch: String,
        parallelism: Option<usize>,
        current_dir: Option<String>,
        temp_dir: String,
        executable_path: Option<String>,
        process_id: u32,
        epoch_ms: Option<u128>,
    ) -> (info: SystemInfo)
        ensures
            info.os_name == os_name,
            info.os_family == os_family,
            info.arch == arch,
            info.cpu_cores == match parallelism {
                Some(n) => n,
                None => 1,
            },
            info.current_dir@ == path_or_unknown(current_dir),
            info.temp_dir == temp_dir,
            info.executable_path@ == path_or_unknown(executable_path),
            info.process_id == process_id,
            info.timestamp_epoch_ms == match epoch_ms {
                Some(t) => t,
                None => 0,
            },
    {
        let cpu_cores = match parallelism {
            Some(n) => n,
            None => 1,
        };
        let timestamp_epoch_ms = match epoch_ms {
            Some(t) => t,
            None => 0,
        };
        SystemInfo {
            os_name,
            os_family,
            arch,
            cpu_cores,
            current_dir: string_or_unknown(current_dir),
            temp_dir,
            executable_path: string_or_unknown(executable_path),
            process_id,
            timestamp_epoch_ms,
        }
    }
}

} // verus!
