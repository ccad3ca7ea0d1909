//! Memory measurement strategies and the per-process arithmetic that turns
//! raw process counters into a memory footprint and a lifetime CPU share.
use vstd::prelude::*;

verus! {

/// How a process's memory footprint is measured.
#[derive(Clone, Copy, Debug, PartialEq, Eq, Structural)]
pub enum MemoryBackend {
    /// Sum of the sizes of all memory-mapped regions.
    ProcMaps,
    /// Resident set size.
    Rss,
    /// Virtual memory size.
    Vsz,
}

/// A configuration that must be rejected before any collection work starts.
#[derive(Clone, Copy, Debug, PartialEq, Eq, Structural)]
pub enum ConfigError {
    /// The backend name is none of `procmaps`, `rss`, `vsz`.
    UnknownBackend,
    /// The backend exists but this platform has no per-process counters for it.
    UnsupportedBackend,
    /// The name filter is not a valid regular expression.
    InvalidPattern,
}

/// The backend that a configuration name selects, if any.
pub open spec fn backend_named(name: Seq<char>) -> Option<MemoryBackend> {
    if name == "procmaps"@ {
        Some(MemoryBackend::ProcMaps)
    } else if name == "rss"@ {
        Some(MemoryBackend::Rss)
    } else if name == "vsz"@ {
        Some(MemoryBackend::Vsz)
    } else {
        None
    }
}

/// Whether a backend reads the per-process status counters (Linux only),
/// rather than the memory map listing.
pub open spec fn needs_process_counters(b: MemoryBackend) -> bool {
    b != MemoryBackend::ProcMaps
}

/// Character-wise equality of two strings.
pub fn same_text(a: &str, b: &str) -> (r: bool)
    ensures
        r == (a@ == b@),
{
    let n = a.unicode_len();
    if n != b.unicode_len() {
        return false;
    }
    let mut i: usize = 0;
    while i < n
        invariant
            n == a@.len(),
            n == b@.len(),
            i <= n,
            forall|k: int| 0 <= k < i ==> a@[k] == b@[k],
        decreases n - i,
    {
        if a.get_char(i) != b.get_char(i) {
            return false;
        }
        i = i + 1;
    }
    assert(a@ =~= b@);
    true
}

/// Validates the configured backend name once, before any process is measured.
/// `counters_available` tells whether this platform offers per-process status
/// counters, which the `rss` and `vsz` backends read.
pub fn select_memory_backend(name: &str, counters_available: bool) -> (r: Result<
    MemoryBackend,
    ConfigError,
>)
    ensures
        match backend_named(name@) {
            None => r == Err::<MemoryBackend, ConfigError>(ConfigError::UnknownBackend),
            Some(b) => if needs_process_counters(b) && !counters_available {
                r == Err::<MemoryBackend, ConfigError>(ConfigError::UnsupportedBackend)
            } else {
                r == Ok::<MemoryBackend, ConfigError>(b)
            },
        },
{
    let b = if same_text(name, "procmaps") {
        MemoryBackend::ProcMaps
    } else if same_text(name, "rss") {
        MemoryBackend::Rss
    } else if same_text(name, "vsz") {
        MemoryBackend::Vsz
    } else {
        return Err(ConfigError::UnknownBackend);
    };
    if b != MemoryBackend::ProcMaps && !counters_available {
        Err(ConfigError::UnsupportedBackend)
    } else {
        Ok(b)
    }
}

/// A value clipped to the range of `u64`: totals saturate rather than wrap.
pub open spec fn saturate(x: int) -> int {
    if x > u64::MAX as int {
        u64::MAX as int
    } else {
        x
    }
}

/// Sum of a sequence of sizes.
pub open spec fn sum_of(s: Seq<u64>) -> int
    decreases s.len(),
{
    if s.len() == 0 {
        0
    } else {
        sum_of(s.drop_last()) + s.last()
    }
}

/// Adds `x` to a running total that saturates at `u64::MAX`.
pub fn saturating_accumulate(total: u64, x: u64) -> (r: u64)
    ensures
        r == saturate(total + x),
{
    total.saturating_add(x)
}

/// Raw counters read for one process, in the shape the backend asks for.
pub enum MemoryReading {
    /// Sizes in bytes of every memory-mapped region of the process.
    Regions(Vec<u64>),
    /// The status counters of the process.
    Counters { rss_bytes: u64, virtual_size: u64 },
}

/// Why one process contributed nothing to a measurement.
#[derive(Clone, Copy, Debug, PartialEq, Eq, Structural)]
pub enum ProcessError {
    /// The process could not be inspected (it exited, or access was denied).
    Unavailable,
    /// The reading handed in is not the one the backend measures from.
    ReadingMismatch,
    /// The process started within the current second: no CPU window to average over.
    EmptyCpuWindow,
    /// The system reported a clock tick rate of zero.
    NoTickRate,
}

/// Whether a reading is the kind the backend measures from.
pub open spec fn reading_fits(b: MemoryBackend, m: MemoryReading) -> bool {
    match m {
        MemoryReading::Regions(_) => b == MemoryBackend::ProcMaps,
        MemoryReading::Counters { .. } => b != MemoryBackend::ProcMaps,
    }
}

/// The footprint in bytes that a backend reports for a fitting reading.
pub open spec fn footprint(b: MemoryBackend, m: MemoryReading) -> int {
    match m {
        MemoryReading::Regions(sizes) => saturate(sum_of(sizes@)),
        MemoryReading::Counters { rss_bytes, virtual_size } => if b == MemoryBackend::Rss {
            rss_bytes as int
        } else {
            virtual_size as int
        },
    }
}

proof fn lemma_saturate_step(s: Seq<u64>)
    requires
        s.len() > 0,
    ensures
        saturate(saturate(sum_of(s.drop_last())) + s.last()) == saturate(sum_of(s)),
{
    assert(sum_of(s.drop_last()) >= 0) by {
        lemma_sum_nonneg(s.drop_last());
    }
}

/// Sums are never negative.
pub proof fn lemma_sum_nonneg(s: Seq<u64>)
    ensures
        sum_of(s) >= 0,
    decreases s.len(),
{
    if s.len() > 0 {
        lemma_sum_nonneg(s.drop_last());
    }
}

/// Saturating sum of sizes.
pub fn total_size(sizes: &Vec<u64>) -> (r: u64)
    ensures
        r == saturate(sum_of(sizes@)),
{
    let mut total: u64 = 0;
    let mut i: usize = 0;
    while i < sizes.len()
        invariant
            i <= sizes@.len(),
            total == saturate(sum_of(sizes@.subrange(0, i as int))),
        decreases sizes@.len() - i,
    {
        proof {
            let t = sizes@.subrange(0, i as int + 1);
            assert(t.drop_last() =~= sizes@.subrange(0, i as int));
            lemma_saturate_step(t);
        }
        total = saturating_accumulate(total, sizes[i]);
        i = i + 1;
    }
    assert(sizes@.subrange(0, i as int) =~= sizes@);
    total
}

/// The memory footprint of one process under the selected backend: the sum of
/// its mapped-region sizes for `ProcMaps` (saturating at `u64::MAX`), its
/// resident set size for `Rss`, its virtual size for `Vsz`.
pub fn get_process_memory_bytes(backend: MemoryBackend, reading: &MemoryReading) -> (r: Result<
    u64,
    ProcessError,
>)
    ensures
        reading_fits(backend, *reading) ==> r == Ok::<u64, ProcessError>(
            footprint(backend, *reading) as u64,
        ),
        !reading_fits(backend, *reading) ==> r == Err::<u64, ProcessError>(
            ProcessError::ReadingMismatch,
        ),
{
    match reading {
        MemoryReading::Regions(sizes) => {
            if backend == MemoryBackend::ProcMaps {
                Ok(total_size(sizes))
            } else {
                Err(ProcessError::ReadingMismatch)
            }
        },
        MemoryReading::Counters { rss_bytes, virtual_size } => {
            match backend {
                MemoryBackend::ProcMaps => Err(ProcessError::ReadingMismatch),
                MemoryBackend::Rss => Ok(*rss_bytes),
                MemoryBackend::Vsz => Ok(*virtual_size),
            }
        },
    }
}

/// Cumulative CPU time of a process and of its reaped children, in clock ticks.
#[derive(Clone, Copy, Debug, PartialEq, Eq, Structural)]
pub struct CpuTicks {
    pub user: u64,
    pub system: u64,
    pub children_user: u64,
    pub children_system: u64,
}

/// All ticks that a process and its reaped children have consumed.
pub open spec fn ticks_consumed(t: CpuTicks) -> int {
    t.user + t.system + t.children_user + t.children_system
}

/// Lifetime average CPU share in thousandths of a percent:
/// `100 * (ticks / ticks_per_second) / elapsed_seconds`, rounded down.
pub open spec fn cpu_share(t: CpuTicks, ticks_per_second: int, elapsed_seconds: int) -> int {
    (100_000 * ticks_consumed(t)) / (ticks_per_second * elapsed_seconds)
}

/// Lifetime average CPU use of one process, in thousandths of a percent,
/// saturating at `u64::MAX`. A process that started within the current second
/// has no window to average over and is reported as `EmptyCpuWindow`.
pub fn get_process_average_cpu(ticks: CpuTicks, ticks_per_second: u64, elapsed_seconds: i64) -> (r:
    Result<u64, ProcessError>)
    ensures
        elapsed_seconds <= 0 ==> r == Err::<u64, ProcessError>(ProcessError::EmptyCpuWindow),
        elapsed_seconds > 0 && ticks_per_second == 0 ==> r == Err::<u64, ProcessError>(
            ProcessError::NoTickRate,
        ),
        elapsed_seconds > 0 && ticks_per_second > 0 ==> r == Ok::<u64, ProcessError>(
            saturate(cpu_share(ticks, ticks_per_second as int, elapsed_seconds as int)) as u64,
        ),
{
    if elapsed_seconds <= 0 {
        return Err(ProcessError::EmptyCpuWindow);
    }
    if ticks_per_second == 0 {
        return Err(ProcessError::NoTickRate);
    }
    let total: u128 = ticks.user as u128 + ticks.system as u128 + ticks.children_user as u128
        + ticks.children_system as u128;
    assert(total <= 4 * (u64::MAX as int));
    let scaled: u128 = total * 100_000;
    assert(total == ticks_consumed(ticks));
    assert(scaled == 100_000 * ticks_consumed(ticks));
    let tps = ticks_per_second as u128;
    let secs = elapsed_seconds as u128;
    assert(tps * secs <= u64::MAX * u64::MAX) by (nonlinear_arith)
        requires
            tps <= u64::MAX,
            secs <= u64::MAX,
            tps >= 0,
            secs >= 0,
    ;
    assert(tps * secs >= 1) by (nonlinear_arith)
        requires
            tps >= 1,
            secs >= 1,
    ;
    let window: u128 = tps * secs;
    let share: u128 = scaled / window;
    assert(share == cpu_share(ticks, ticks_per_second as int, elapsed_seconds as int));
    if share > u64::MAX as u128 {
        Ok(u64::MAX)
    } else {
        Ok(share as u64)
    }
}

} // verus!
