//! Properties that relate several operations of the library.
use vstd::prelude::*;
use crate::pattern::{kept_by, search_outcome};
use crate::pipeline::{
    first_seen, groups_of, key_of, lemma_first_seen, member_count, reports, ContainerGroup,
    Report, TransformOptions,
};
use crate::stats::{measured_cpu, measured_memory, ContainerStats, ProcessSample};

verus! {

/// Measurement sums split over a concatenation.
pub proof fn lemma_measured_concat(a: Seq<ProcessSample>, b: Seq<ProcessSample>)
    ensures
        measured_memory(a + b) == measured_memory(a) + measured_memory(b),
        measured_cpu(a + b) == measured_cpu(a) + measured_cpu(b),
    decreases b.len(),
{
    if b.len() > 0 {
        lemma_measured_concat(a, b.drop_last());
        assert((a + b).drop_last() =~= a + b.drop_last());
    }
}

/// A process whose memory could not be measured adds nothing: a container's
/// memory is the sum over the other processes alone; likewise for CPU.
pub proof fn lemma_failed_process_adds_nothing(ps: Seq<ProcessSample>, j: int)
    requires
        0 <= j < ps.len(),
    ensures
        ps[j].memory is Err ==> measured_memory(ps) == measured_memory(ps.remove(j)),
        ps[j].cpu is Err ==> measured_cpu(ps) == measured_cpu(ps.remove(j)),
{
    let a = ps.subrange(0, j);
    let one = ps.subrange(j, j + 1);
    let c = ps.subrange(j + 1, ps.len() as int);
    assert(ps =~= (a + one) + c);
    assert(ps.remove(j) =~= a + c);
    lemma_measured_concat(a + one, c);
    lemma_measured_concat(a, one);
    lemma_measured_concat(a, c);
    assert(one.drop_last() =~= Seq::<ProcessSample>::empty());
    assert(one.last() == ps[j]);
    assert(measured_memory(one.drop_last()) == 0);
    assert(measured_cpu(one.drop_last()) == 0);
    if ps[j].memory is Err {
        assert(measured_memory(one) == 0);
    }
    if ps[j].cpu is Err {
        assert(measured_cpu(one) == 0);
    }
}

/// Grouping partitions the records: each record's key names exactly one group.
pub proof fn lemma_grouping_is_partition(
    gs: Seq<ContainerGroup>,
    s: Seq<ContainerStats>,
    d: char,
    by_prefix: bool,
)
    requires
        groups_of(gs, s, d, by_prefix),
    ensures
        forall|j: int|
            0 <= j < s.len() ==> exists|i: int|
                0 <= i < gs.len() && (#[trigger] gs[i]).fix@ == key_of(#[trigger] s[j], d, by_prefix),
        forall|i1: int, i2: int|
            0 <= i1 < gs.len() && 0 <= i2 < gs.len() && (#[trigger] gs[i1]).fix@ == (
            #[trigger] gs[i2]).fix@ ==> i1 == i2,
        forall|i: int|
            0 <= i < gs.len() ==> exists|j: int|
                0 <= j < s.len() && key_of(#[trigger] s[j], d, by_prefix) == (#[trigger] gs[i]).fix@,
{
    lemma_first_seen(s, d, by_prefix);
    let f = first_seen(s, d, by_prefix);
    assert forall|j: int| 0 <= j < s.len() implies exists|i: int|
        0 <= i < gs.len() && (#[trigger] gs[i]).fix@ == key_of(#[trigger] s[j], d, by_prefix) by {
        let k = key_of(s[j], d, by_prefix);
        assert(f.contains(k));
        let i = choose|i: int| 0 <= i < f.len() && f[i] == k;
        assert(gs[i].fix@ == f[i]);
    }
    assert forall|i1: int, i2: int|
        0 <= i1 < gs.len() && 0 <= i2 < gs.len() && (#[trigger] gs[i1]).fix@ == (
        #[trigger] gs[i2]).fix@ implies i1 == i2 by {
        assert(gs[i1].fix@ == f[i1] && gs[i2].fix@ == f[i2]);
    }
    assert forall|i: int| 0 <= i < gs.len() implies exists|j: int|
        0 <= j < s.len() && key_of(#[trigger] s[j], d, by_prefix) == (#[trigger] gs[i]).fix@ by {
        assert(gs[i].fix@ == f[i]);
        assert(f.contains(f[i]));
    }
}

/// Sum of the member counts of the given keys.
pub open spec fn counts_over(s: Seq<ContainerStats>, d: char, by_prefix: bool, ks: Seq<Seq<char>>) -> int
    decreases ks.len(),
{
    if ks.len() == 0 {
        0
    } else {
        counts_over(s, d, by_prefix, ks.drop_last()) + member_count(s, d, by_prefix, ks.last())
    }
}

/// How often `k` occurs in `ks`.
pub open spec fn occurrences(ks: Seq<Seq<char>>, k: Seq<char>) -> int
    decreases ks.len(),
{
    if ks.len() == 0 {
        0
    } else {
        occurrences(ks.drop_last(), k) + if ks.last() == k {
            1int
        } else {
            0int
        }
    }
}

proof fn lemma_occurrences(ks: Seq<Seq<char>>, k: Seq<char>)
    requires
        ks.no_duplicates(),
    ensures
        occurrences(ks, k) == if ks.contains(k) {
            1int
        } else {
            0int
        },
    decreases ks.len(),
{
    if ks.len() > 0 {
        let p = ks.drop_last();
        assert(p.no_duplicates()) by {
            assert forall|a: int, b: int| 0 <= a < p.len() && 0 <= b < p.len() && a != b implies p[a] != p[b] by {
                assert(p[a] == ks[a] && p[b] == ks[b]);
            }
        }
        lemma_occurrences(p, k);
        if p.contains(k) {
            let i = choose|i: int| 0 <= i < p.len() && p[i] == k;
            assert(ks[i] == k);
            assert(ks.contains(k));
            assert(ks.last() != k) by {
                assert(ks[ks.len() - 1] == ks.last());
            }
        } else if ks.last() == k {
            assert(ks[ks.len() - 1] == k);
        } else {
            assert(!ks.contains(k)) by {
                if ks.contains(k) {
                    let i = choose|i: int| 0 <= i < ks.len() && ks[i] == k;
                    if i < ks.len() - 1 {
                        assert(p[i] == k);
                    }
                }
            }
        }
    }
}

proof fn lemma_counts_step(s: Seq<ContainerStats>, d: char, by_prefix: bool, ks: Seq<Seq<char>>)
    requires
        s.len() > 0,
    ensures
        counts_over(s, d, by_prefix, ks) == counts_over(s.drop_last(), d, by_prefix, ks)
            + occurrences(ks, key_of(s.last(), d, by_prefix)),
    decreases ks.len(),
{
    if ks.len() > 0 {
        lemma_counts_step(s, d, by_prefix, ks.drop_last());
    }
}

proof fn lemma_absent_count(s: Seq<ContainerStats>, d: char, by_prefix: bool, k: Seq<char>)
    requires
        forall|j: int| 0 <= j < s.len() ==> key_of(#[trigger] s[j], d, by_prefix) != k,
    ensures
        member_count(s, d, by_prefix, k) == 0,
    decreases s.len(),
{
    if s.len() > 0 {
        let p = s.drop_last();
        assert forall|j: int| 0 <= j < p.len() implies key_of(#[trigger] p[j], d, by_prefix) != k by {
            assert(p[j] == s[j]);
        }
        assert(s[s.len() - 1] == s.last());
        lemma_absent_count(p, d, by_prefix, k);
    }
}

/// Every record is counted in exactly one group: the member counts of the
/// groups add up to the number of records.
pub proof fn lemma_group_counts_cover_records(s: Seq<ContainerStats>, d: char, by_prefix: bool)
    ensures
        counts_over(s, d, by_prefix, first_seen(s, d, by_prefix)) == s.len(),
    decreases s.len(),
{
    if s.len() > 0 {
        let p = s.drop_last();
        let kl = key_of(s.last(), d, by_prefix);
        let e = first_seen(p, d, by_prefix);
        lemma_group_counts_cover_records(p, d, by_prefix);
        lemma_first_seen(p, d, by_prefix);
        lemma_first_seen(s, d, by_prefix);
        lemma_counts_step(s, d, by_prefix, first_seen(s, d, by_prefix));
        lemma_occurrences(first_seen(s, d, by_prefix), kl);
        assert(first_seen(s, d, by_prefix).contains(kl)) by {
            assert(key_of(s[s.len() - 1], d, by_prefix) == kl);
        }
        if !e.contains(kl) {
            let f = e.push(kl);
            assert(f.drop_last() =~= e);
            assert(forall|j: int| 0 <= j < p.len() ==> key_of(#[trigger] p[j], d, by_prefix) != kl);
            lemma_absent_count(p, d, by_prefix, kl);
            lemma_counts_step(s, d, by_prefix, e);
            lemma_occurrences(e, kl);
        }
    }
}

/// A filter that matches no name keeps nothing.
pub proof fn lemma_unmatched_filter_is_empty(s: Seq<ContainerStats>, pattern: Seq<char>)
    requires
        forall|i: int| 0 <= i < s.len() ==> search_outcome(pattern, (#[trigger] s[i]).name@) == Some(false),
    ensures
        kept_by(s, pattern) == Seq::<ContainerStats>::empty(),
    decreases s.len(),
{
    if s.len() > 0 {
        let p = s.drop_last();
        assert(s[s.len() - 1] == s.last());
        assert forall|i: int| 0 <= i < p.len() implies search_outcome(pattern, (#[trigger] p[i]).name@)
            == Some(false) by {
            assert(p[i] == s[i]);
        }
        lemma_unmatched_filter_is_empty(p, pattern);
    }
}

/// Grouping no records yields no groups.
pub proof fn lemma_grouping_empty(gs: Seq<ContainerGroup>, d: char, by_prefix: bool)
    requires
        groups_of(gs, Seq::<ContainerStats>::empty(), d, by_prefix),
    ensures
        gs.len() == 0,
{
}

/// With totals requested, the report is the total whatever the grouping and
/// sorting flags say.
pub proof fn lemma_total_bypasses_grouping_and_sorting(
    r: Report,
    f: Seq<ContainerStats>,
    o: TransformOptions,
)
    requires
        o.total,
    ensures
        reports(r, f, o) == reports(
            r,
            f,
            TransformOptions { group_by_prefix: false, group_by_suffix: false, sort: false, ..o },
        ),
{
}

} // verus!
