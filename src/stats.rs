//! Folding per-process measurements into one record per container.
use vstd::prelude::*;
use crate::backend::{saturate, saturating_accumulate, ProcessError};

verus! {

/// What was measured for one process of a container.
pub struct ProcessSample {
    /// Memory footprint in bytes, or why it could not be measured.
    pub memory: Result<u64, ProcessError>,
    /// Lifetime CPU share in thousandths of a percent, or why it could not be measured.
    pub cpu: Result<u64, ProcessError>,
}

/// A running container together with the measurements of its processes.
pub struct ContainerSample {
    pub id: String,
    pub names: Vec<String>,
    pub processes: Vec<ProcessSample>,
}

/// Memory and CPU use of one container.
pub struct ContainerStats {
    pub id: String,
    /// The container's names, joined with `", "`.
    pub name: String,
    pub memory_bytes: u64,
    /// Sum over the container's processes, in thousandths of a percent.
    pub cpu_milli_percent: u64,
}

/// Running totals over the processes of one container.
#[derive(Clone, Copy, Debug, PartialEq, Eq, Structural)]
pub struct ProcessTally {
    pub memory_bytes: u64,
    pub cpu_milli_percent: u64,
    /// Measurements that failed and were left out of the totals.
    pub failures: u64,
}

/// Sum of the memory measurements that succeeded.
pub open spec fn measured_memory(ps: Seq<ProcessSample>) -> int
    decreases ps.len(),
{
    if ps.len() == 0 {
        0
    } else {
        measured_memory(ps.drop_last()) + match ps.last().memory {
            Ok(m) => m as int,
            Err(_) => 0,
        }
    }
}

/// Sum of the CPU measurements that succeeded.
pub open spec fn measured_cpu(ps: Seq<ProcessSample>) -> int
    decreases ps.len(),
{
    if ps.len() == 0 {
        0
    } else {
        measured_cpu(ps.drop_last()) + match ps.last().cpu {
            Ok(c) => c as int,
            Err(_) => 0,
        }
    }
}

/// Number of measurements, memory and CPU alike, that failed.
pub open spec fn failed_measurements(ps: Seq<ProcessSample>) -> int
    decreases ps.len(),
{
    if ps.len() == 0 {
        0
    } else {
        failed_measurements(ps.drop_last()) + (if ps.last().memory is Err {
            1int
        } else {
            0int
        }) + (if ps.last().cpu is Err {
            1int
        } else {
            0int
        })
    }
}

/// Names joined by a separator, in order.
pub open spec fn joined(parts: Seq<Seq<char>>, sep: Seq<char>) -> Seq<char>
    decreases parts.len(),
{
    if parts.len() == 0 {
        Seq::empty()
    } else if parts.len() == 1 {
        parts[0]
    } else {
        joined(parts.drop_last(), sep) + sep + parts.last()
    }
}

/// The views of a sequence of strings.
pub open spec fn texts(v: Seq<String>) -> Seq<Seq<char>> {
    v.map_values(|s: String| s@)
}

/// The display name of a container: its names joined with `", "`.
pub open spec fn display_name(names: Seq<String>) -> Seq<char> {
    joined(texts(names), ", "@)
}

/// Relies on itertools::join: each item written as it is, with `sep` between
/// consecutive items and nothing before the first or after the last.
#[verifier::external_body]
fn join_names(names: &Vec<String>) -> (r: String)
    ensures
        r@ == display_name(names@),
{
    itertools::join(names, ", ")
}

proof fn lemma_nonneg(ps: Seq<ProcessSample>)
    ensures
        measured_memory(ps) >= 0,
        measured_cpu(ps) >= 0,
        failed_measurements(ps) >= 0,
    decreases ps.len(),
{
    if ps.len() > 0 {
        lemma_nonneg(ps.drop_last());
    }
}

/// Folds the measurements of one container's processes. Failed measurements
/// are counted and left out; the sums saturate at `u64::MAX`.
pub fn tally_processes(processes: &Vec<ProcessSample>) -> (r: ProcessTally)
    ensures
        r.memory_bytes == saturate(measured_memory(processes@)),
        r.cpu_milli_percent == saturate(measured_cpu(processes@)),
        r.failures == saturate(failed_measurements(processes@)),
{
    let mut t = ProcessTally { memory_bytes: 0, cpu_milli_percent: 0, failures: 0 };
    let mut i: usize = 0;
    while i < processes.len()
        invariant
            i <= processes@.len(),
            t.memory_bytes == saturate(measured_memory(processes@.subrange(0, i as int))),
            t.cpu_milli_percent == saturate(measured_cpu(processes@.subrange(0, i as int))),
            t.failures == saturate(failed_measurements(processes@.subrange(0, i as int))),
        decreases processes@.len() - i,
    {
        let ghost pre = processes@.subrange(0, i as int);
        let ghost cur = processes@.subrange(0, i as int + 1);
        proof {
            assert(cur.drop_last() =~= pre);
            lemma_nonneg(pre);
        }
        let p = &processes[i];
        match p.memory {
            Ok(m) => {
                t.memory_bytes = saturating_accumulate(t.memory_bytes, m);
            },
            Err(_) => {
                t.failures = saturating_accumulate(t.failures, 1);
            },
        }
        match p.cpu {
            Ok(c) => {
                t.cpu_milli_percent = saturating_accumulate(t.cpu_milli_percent, c);
            },
            Err(_) => {
                t.failures = saturating_accumulate(t.failures, 1);
            },
        }
        i = i + 1;
    }
    assert(processes@.subrange(0, i as int) =~= processes@);
    t
}

/// Whether every character is an ASCII decimal digit.
pub open spec fn all_digits(s: Seq<char>) -> bool {
    forall|i: int| 0 <= i < s.len() ==> '0' <= #[trigger] s[i] <= '9'
}

/// The value of a string of decimal digits.
pub open spec fn decimal(s: Seq<char>) -> int
    decreases s.len(),
{
    if s.len() == 0 {
        0
    } else {
        10 * decimal(s.drop_last()) + (s.last() as int - '0' as int)
    }
}

/// The process id a runtime's process listing spells: a non-empty run of
/// decimal digits whose value fits in `i64`.
pub open spec fn pid_value(s: Seq<char>) -> Option<i64> {
    if s.len() > 0 && all_digits(s) && decimal(s) <= i64::MAX as int {
        Some(decimal(s) as i64)
    } else {
        None
    }
}

proof fn lemma_decimal_grows(s: Seq<char>, k: int)
    requires
        all_digits(s),
        0 <= k <= s.len(),
    ensures
        0 <= decimal(s.subrange(0, k)) <= decimal(s),
    decreases s.len(),
{
    if k < s.len() {
        let p = s.drop_last();
        assert(p.subrange(0, k) =~= s.subrange(0, k));
        assert(all_digits(p)) by {
            assert forall|i: int| 0 <= i < p.len() implies '0' <= #[trigger] p[i] <= '9' by {
                assert(p[i] == s[i]);
            }
        }
        lemma_decimal_grows(p, k);
        assert(s.last() == s[s.len() - 1]);
    } else {
        assert(s.subrange(0, k) =~= s);
        if s.len() > 0 {
            let p = s.drop_last();
            assert(all_digits(p)) by {
                assert forall|i: int| 0 <= i < p.len() implies '0' <= #[trigger] p[i] <= '9' by {
                    assert(p[i] == s[i]);
                }
            }
            lemma_decimal_grows(p, p.len() as int);
            assert(p.subrange(0, p.len() as int) =~= p);
            assert(s.last() == s[s.len() - 1]);
        }
    }
}

/// Reads one process id from a runtime's process listing.
pub fn parse_pid(text: &str) -> (r: Option<i64>)
    ensures
        r == pid_value(text@),
{
    let n = text.unicode_len();
    if n == 0 {
        return None;
    }
    let mut v: i64 = 0;
    let mut i: usize = 0;
    while i < n
        invariant
            n == text@.len(),
            i <= n,
            all_digits(text@.subrange(0, i as int)),
            v as int == decimal(text@.subrange(0, i as int)),
            v >= 0,
        decreases n - i,
    {
        let c = text.get_char(i);
        let ghost cur = text@.subrange(0, i as int + 1);
        proof {
            assert(cur.drop_last() =~= text@.subrange(0, i as int));
            assert(cur.last() == c);
        }
        if c < '0' || c > '9' {
            assert(!all_digits(text@)) by {
                assert(text@[i as int] == c);
            }
            return None;
        }
        let d: i64 = (c as u32 - '0' as u32) as i64;
        assert(d == c as int - '0' as int);
        if v > (i64::MAX - d) / 10 {
            proof {
                assert(decimal(cur) > i64::MAX as int) by (nonlinear_arith)
                    requires
                        decimal(cur) == 10 * v + d,
                        v > (i64::MAX - d) / 10,
                        0 <= d <= 9,
                ;
                if all_digits(text@) {
                    lemma_decimal_grows(text@, i as int + 1);
                }
            }
            return None;
        }
        assert(10 * v + d <= i64::MAX) by (nonlinear_arith)
            requires
                v <= (i64::MAX - d) / 10,
                0 <= d <= 9,
                v >= 0,
        ;
        v = v * 10 + d;
        i = i + 1;
        proof {
            assert forall|k: int| 0 <= k < i implies '0' <= #[trigger] text@.subrange(0, i as int)[k] <= '9' by {
                if k < i - 1 {
                    assert(text@.subrange(0, i as int)[k] == text@.subrange(0, i - 1)[k]);
                }
            }
        }
    }
    assert(text@.subrange(0, i as int) =~= text@);
    Some(v)
}

/// Reads every process id of a runtime's process listing, in order; `None`
/// where one of them is not a process id.
pub fn parse_pids(listed: &Vec<String>) -> (r: Option<Vec<i64>>)
    ensures
        r is Some <==> forall|i: int| 0 <= i < listed@.len() ==> (#[trigger] pid_value(listed@[i]@)) is Some,
        r matches Some(v) ==> v@.len() == listed@.len() && forall|i: int|
            0 <= i < v@.len() ==> pid_value(listed@[i]@) == Some(#[trigger] v@[i]),
{
    let mut out: Vec<i64> = Vec::new();
    let mut i: usize = 0;
    while i < listed.len()
        invariant
            i <= listed@.len(),
            out@.len() == i,
            forall|k: int| 0 <= k < i ==> pid_value(listed@[k]@) == Some(#[trigger] out@[k]),
        decreases listed@.len() - i,
    {
        match parse_pid(listed[i].as_str()) {
            Some(p) => out.push(p),
            None => return None,
        }
        i = i + 1;
    }
    assert forall|k: int| 0 <= k < listed@.len() implies (#[trigger] pid_value(listed@[k]@)) is Some by {
        assert(pid_value(listed@[k]@) == Some(out@[k]));
    }
    Some(out)
}

/// Whether a record is the fold of one container's measurements.
pub open spec fn describes(s: ContainerStats, c: ContainerSample) -> bool {
    &&& s.id@ == c.id@
    &&& s.name@ == display_name(c.names@)
    &&& s.memory_bytes == saturate(measured_memory(c.processes@))
    &&& s.cpu_milli_percent == saturate(measured_cpu(c.processes@))
}

/// The record of one container.
pub fn container_stats(c: &ContainerSample) -> (r: ContainerStats)
    ensures
        describes(r, *c),
{
    let t = tally_processes(&c.processes);
    ContainerStats {
        id: c.id.clone(),
        name: join_names(&c.names),
        memory_bytes: t.memory_bytes,
        cpu_milli_percent: t.cpu_milli_percent,
    }
}

/// One record per container, in input order.
pub fn collect(containers: &Vec<ContainerSample>) -> (r: Vec<ContainerStats>)
    ensures
        r@.len() == containers@.len(),
        forall|i: int| 0 <= i < r@.len() ==> describes(#[trigger] r@[i], containers@[i]),
{
    let mut out: Vec<ContainerStats> = Vec::new();
    let mut i: usize = 0;
    while i < containers.len()
        invariant
            i <= containers@.len(),
            out@.len() == i,
            forall|k: int| 0 <= k < i ==> describes(#[trigger] out@[k], containers@[k]),
        decreases containers@.len() - i,
    {
        out.push(container_stats(&containers[i]));
        i = i + 1;
    }
    out
}

} // verus!
