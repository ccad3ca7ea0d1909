//! Totals, grouping by a name fragment, and ordering by memory use.
use vstd::prelude::*;
use crate::backend::{saturate, saturating_accumulate};
use crate::stats::ContainerStats;
use crate::pattern::{filter, kept_by, decided_for_all, NamePattern};

verus! {

/// Records folded together because their names share a grouping key.
pub struct ContainerGroup {
    /// The grouping key: a prefix or suffix of the members' names.
    pub fix: String,
    pub memory_bytes: u64,
    pub cpu_milli_percent: u64,
    /// Number of records folded into this group.
    pub containers: u64,
}

/// Sum of the memory of a sequence of records.
pub open spec fn memory_sum(s: Seq<ContainerStats>) -> int
    decreases s.len(),
{
    if s.len() == 0 {
        0
    } else {
        memory_sum(s.drop_last()) + s.last().memory_bytes
    }
}

/// Total memory of all records, saturating at `u64::MAX`.
pub fn total_memory(stats: &Vec<ContainerStats>) -> (r: u64)
    ensures
        r == saturate(memory_sum(stats@)),
{
    let mut total: u64 = 0;
    let mut i: usize = 0;
    while i < stats.len()
        invariant
            i <= stats@.len(),
            total == saturate(memory_sum(stats@.subrange(0, i as int))),
        decreases stats@.len() - i,
    {
        proof {
            let t = stats@.subrange(0, i as int + 1);
            assert(t.drop_last() =~= stats@.subrange(0, i as int));
            lemma_memory_sum_nonneg(t.drop_last());
        }
        total = saturating_accumulate(total, stats[i].memory_bytes);
        i = i + 1;
    }
    assert(stats@.subrange(0, i as int) =~= stats@);
    total
}

/// Sums of memory are never negative.
pub proof fn lemma_memory_sum_nonneg(s: Seq<ContainerStats>)
    ensures
        memory_sum(s) >= 0,
    decreases s.len(),
{
    if s.len() > 0 {
        lemma_memory_sum_nonneg(s.drop_last());
    }
}

/// Position of the first delimiter in `name`, or its length if there is none.
pub open spec fn first_cut(name: Seq<char>, d: char) -> int {
    if name.contains(d) {
        choose|i: int| 0 <= i < name.len() && name[i] == d && forall|k: int| 0 <= k < i ==> name[k] != d
    } else {
        name.len() as int
    }
}

/// Position of the last delimiter in `name`, or -1 if there is none.
pub open spec fn last_cut(name: Seq<char>, d: char) -> int {
    if name.contains(d) {
        choose|i: int|
            0 <= i < name.len() && name[i] == d && forall|k: int| i < k < name.len() ==> name[k] != d
    } else {
        -1
    }
}

/// The grouping key of a name: the segment before the first delimiter
/// (`by_prefix`) or after the last one; the whole name where it holds none.
pub open spec fn group_key(name: Seq<char>, d: char, by_prefix: bool) -> Seq<char> {
    if by_prefix {
        name.subrange(0, first_cut(name, d))
    } else {
        name.subrange(last_cut(name, d) + 1, name.len() as int)
    }
}

/// Computes the grouping key of a name.
pub fn grouping_key(name: &str, delimiter: char, by_prefix: bool) -> (r: String)
    ensures
        r@ == group_key(name@, delimiter, by_prefix),
{
    let n = name.unicode_len();
    if by_prefix {
        let mut i: usize = 0;
        while i < n
            invariant
                n == name@.len(),
                i <= n,
                forall|k: int| 0 <= k < i ==> name@[k] != delimiter,
            ensures
                i <= n,
                forall|k: int| 0 <= k < i ==> name@[k] != delimiter,
                i == n || name@[i as int] == delimiter,
            decreases n - i,
        {
            if name.get_char(i) == delimiter {
                break;
            }
            i = i + 1;
        }
        proof {
            if i < n && name@[i as int] == delimiter {
                assert(name@.contains(delimiter));
                let j = first_cut(name@, delimiter);
                assert(0 <= j < name@.len() && name@[j] == delimiter && forall|k: int|
                    0 <= k < j ==> name@[k] != delimiter) by {
                    assert(exists|j: int|
                        0 <= j < name@.len() && name@[j] == delimiter && forall|k: int|
                            0 <= k < j ==> name@[k] != delimiter) by {
                        assert(0 <= i < name@.len() && name@[i as int] == delimiter);
                    }
                }
                assert(j == i);
            } else {
                assert(i == n);
                assert(!name@.contains(delimiter));
            }
        }
        String::from_str(name.substring_char(0, i))
    } else {
        let mut i: usize = n;
        while i > 0
            invariant
                n == name@.len(),
                i <= n,
                forall|k: int| i <= k < n ==> name@[k] != delimiter,
            ensures
                i <= n,
                forall|k: int| i <= k < n ==> name@[k] != delimiter,
                i == 0 || name@[i - 1] == delimiter,
            decreases i,
        {
            if name.get_char(i - 1) == delimiter {
                break;
            }
            i = i - 1;
        }
        proof {
            if i > 0 && name@[i - 1] == delimiter {
                assert(name@.contains(delimiter));
                let j = last_cut(name@, delimiter);
                assert(0 <= j < name@.len() && name@[j] == delimiter && forall|k: int|
                    j < k < name@.len() ==> name@[k] != delimiter) by {
                    assert(exists|j: int|
                        0 <= j < name@.len() && name@[j] == delimiter && forall|k: int|
                            j < k < name@.len() ==> name@[k] != delimiter) by {
                        assert(0 <= i - 1 < name@.len() && name@[i - 1] == delimiter);
                    }
                }
                assert(j == i - 1);
            } else {
                assert(i == 0);
                assert(!name@.contains(delimiter));
            }
        }
        String::from_str(name.substring_char(i, n))
    }
}

/// The grouping key of a record.
pub open spec fn key_of(s: ContainerStats, d: char, by_prefix: bool) -> Seq<char> {
    group_key(s.name@, d, by_prefix)
}

/// Distinct keys of the records, in the order they are first seen.
pub open spec fn first_seen(s: Seq<ContainerStats>, d: char, by_prefix: bool) -> Seq<Seq<char>>
    decreases s.len(),
{
    if s.len() == 0 {
        Seq::empty()
    } else {
        let earlier = first_seen(s.drop_last(), d, by_prefix);
        let k = key_of(s.last(), d, by_prefix);
        if earlier.contains(k) {
            earlier
        } else {
            earlier.push(k)
        }
    }
}

/// Sum of the memory of the records whose key is `k`.
pub open spec fn member_memory(s: Seq<ContainerStats>, d: char, by_prefix: bool, k: Seq<char>) -> int
    decreases s.len(),
{
    if s.len() == 0 {
        0
    } else {
        member_memory(s.drop_last(), d, by_prefix, k) + if key_of(s.last(), d, by_prefix) == k {
            s.last().memory_bytes as int
        } else {
            0
        }
    }
}

/// Sum of the CPU share of the records whose key is `k`.
pub open spec fn member_cpu(s: Seq<ContainerStats>, d: char, by_prefix: bool, k: Seq<char>) -> int
    decreases s.len(),
{
    if s.len() == 0 {
        0
    } else {
        member_cpu(s.drop_last(), d, by_prefix, k) + if key_of(s.last(), d, by_prefix) == k {
            s.last().cpu_milli_percent as int
        } else {
            0
        }
    }
}

/// Number of records whose key is `k`.
pub open spec fn member_count(s: Seq<ContainerStats>, d: char, by_prefix: bool, k: Seq<char>) -> int
    decreases s.len(),
{
    if s.len() == 0 {
        0
    } else {
        member_count(s.drop_last(), d, by_prefix, k) + if key_of(s.last(), d, by_prefix) == k {
            1int
        } else {
            0int
        }
    }
}

/// Whether `g` is the fold of the records of `s` whose key is its `fix`.
pub open spec fn folds(g: ContainerGroup, s: Seq<ContainerStats>, d: char, by_prefix: bool) -> bool {
    &&& g.memory_bytes == saturate(member_memory(s, d, by_prefix, g.fix@))
    &&& g.cpu_milli_percent == saturate(member_cpu(s, d, by_prefix, g.fix@))
    &&& g.containers == saturate(member_count(s, d, by_prefix, g.fix@))
}

/// The keys seen first are exactly the keys of the records, each once.
pub proof fn lemma_first_seen(s: Seq<ContainerStats>, d: char, by_prefix: bool)
    ensures
        first_seen(s, d, by_prefix).no_duplicates(),
        forall|k: Seq<char>|
            #![trigger first_seen(s, d, by_prefix).contains(k)]
            first_seen(s, d, by_prefix).contains(k) <==> exists|j: int|
                0 <= j < s.len() && key_of(#[trigger] s[j], d, by_prefix) == k,
    decreases s.len(),
{
    if s.len() > 0 {
        let p = s.drop_last();
        lemma_first_seen(p, d, by_prefix);
        let e = first_seen(p, d, by_prefix);
        let f = first_seen(s, d, by_prefix);
        let kl = key_of(s.last(), d, by_prefix);
        assert(s[s.len() - 1] == s.last());
        if e.contains(kl) {
            assert(f == e);
        } else {
            assert(f == e.push(kl));
            assert(f[e.len() as int] == kl);
            assert(f.contains(kl));
            assert forall|a: int, b: int| 0 <= a < b < f.len() implies f[a] != f[b] by {
                if b == e.len() {
                    assert(f[a] == e[a]);
                } else {
                    assert(f[a] == e[a] && f[b] == e[b]);
                }
            }
            assert forall|x: Seq<char>| #[trigger] e.contains(x) implies f.contains(x) by {
                let i = choose|i: int| 0 <= i < e.len() && e[i] == x;
                assert(f[i] == x);
            }
            assert forall|x: Seq<char>| #[trigger] f.contains(x) implies e.contains(x) || x == kl by {
                let i = choose|i: int| 0 <= i < f.len() && f[i] == x;
                if i < e.len() {
                    assert(e[i] == x);
                }
            }
        }
        assert forall|k: Seq<char>| #[trigger] f.contains(k) implies exists|j: int|
            0 <= j < s.len() && key_of(#[trigger] s[j], d, by_prefix) == k by {
            if e.contains(k) {
                let j = choose|j: int| 0 <= j < p.len() && key_of(#[trigger] p[j], d, by_prefix) == k;
                assert(s[j] == p[j]);
            } else {
                assert(k == kl);
                assert(key_of(s[s.len() - 1], d, by_prefix) == k);
            }
        }
        assert forall|k: Seq<char>| (exists|j: int|
            0 <= j < s.len() && key_of(#[trigger] s[j], d, by_prefix) == k) implies #[trigger] f.contains(k) by {
            let j = choose|j: int| 0 <= j < s.len() && key_of(#[trigger] s[j], d, by_prefix) == k;
            if j < s.len() - 1 {
                assert(p[j] == s[j]);
                assert(e.contains(k));
            } else {
                assert(k == kl);
            }
        }
    }
}

proof fn lemma_member_nonneg(s: Seq<ContainerStats>, d: char, by_prefix: bool, k: Seq<char>)
    ensures
        member_memory(s, d, by_prefix, k) >= 0,
        member_cpu(s, d, by_prefix, k) >= 0,
        member_count(s, d, by_prefix, k) >= 0,
    decreases s.len(),
{
    if s.len() > 0 {
        lemma_member_nonneg(s.drop_last(), d, by_prefix, k);
    }
}

/// Position of the group whose key is `fix`, if any.
fn find_group(groups: &Vec<ContainerGroup>, fix: &String) -> (r: Option<usize>)
    ensures
        r matches Some(g) ==> g < groups@.len() && groups@[g as int].fix@ == fix@,
        r is None ==> forall|g: int| 0 <= g < groups@.len() ==> groups@[g].fix@ != fix@,
{
    let mut i: usize = 0;
    while i < groups.len()
        invariant
            i <= groups@.len(),
            forall|g: int| 0 <= g < i ==> groups@[g].fix@ != fix@,
        decreases groups@.len() - i,
    {
        if groups[i].fix == *fix {
            return Some(i);
        }
        i = i + 1;
    }
    None
}

/// Folds the records sharing a grouping key into one group each, in the order
/// the keys are first seen. Sums and counts saturate at `u64::MAX`.
pub fn group(stats: &Vec<ContainerStats>, delimiter: char, by_prefix: bool) -> (r: Vec<
    ContainerGroup,
>)
    ensures
        r@.len() == first_seen(stats@, delimiter, by_prefix).len(),
        forall|i: int|
            0 <= i < r@.len() ==> (#[trigger] r@[i]).fix@ == first_seen(
                stats@,
                delimiter,
                by_prefix,
            )[i] && folds(r@[i], stats@, delimiter, by_prefix),
{
    let mut out: Vec<ContainerGroup> = Vec::new();
    let mut j: usize = 0;
    while j < stats.len()
        invariant
            j <= stats@.len(),
            out@.len() == first_seen(stats@.subrange(0, j as int), delimiter, by_prefix).len(),
            forall|i: int|
                0 <= i < out@.len() ==> (#[trigger] out@[i]).fix@ == first_seen(
                    stats@.subrange(0, j as int),
                    delimiter,
                    by_prefix,
                )[i] && folds(out@[i], stats@.subrange(0, j as int), delimiter, by_prefix),
        decreases stats@.len() - j,
    {
        let ghost pre = stats@.subrange(0, j as int);
        let ghost cur = stats@.subrange(0, j as int + 1);
        let ghost old_out = out@;
        proof {
            assert(cur.drop_last() =~= pre);
            lemma_first_seen(pre, delimiter, by_prefix);
        }
        let rec = &stats[j];
        let key = grouping_key(rec.name.as_str(), delimiter, by_prefix);
        assert(cur.last() == stats@[j as int]);
        assert(key@ == group_key(stats@[j as int].name@, delimiter, by_prefix));
        assert(key@ == key_of(stats@[j as int], delimiter, by_prefix));
        assert(key@ == key_of(cur.last(), delimiter, by_prefix));
        match find_group(&out, &key) {
            Some(g) => {
                proof {
                    lemma_member_nonneg(pre, delimiter, by_prefix, key@);
                    assert(first_seen(pre, delimiter, by_prefix)[g as int] == key@);
                    assert(first_seen(pre, delimiter, by_prefix).contains(key@));
                }
                let ng = ContainerGroup {
                    fix: key,
                    memory_bytes: saturating_accumulate(out[g].memory_bytes, rec.memory_bytes),
                    cpu_milli_percent: saturating_accumulate(
                        out[g].cpu_milli_percent,
                        rec.cpu_milli_percent,
                    ),
                    containers: saturating_accumulate(out[g].containers, 1),
                };
                out.set(g, ng);
                proof {
                    assert forall|i: int| 0 <= i < out@.len() implies (#[trigger] out@[i]).fix@
                        == first_seen(cur, delimiter, by_prefix)[i] && folds(out@[i], cur, delimiter, by_prefix) by {
                        lemma_member_nonneg(pre, delimiter, by_prefix, out@[i].fix@);
                        if i != g {
                            assert(out@[i] == old_out[i]);
                            assert(old_out[i].fix@ != key@) by {
                                assert(first_seen(pre, delimiter, by_prefix)[i] != first_seen(pre, delimiter, by_prefix)[g as int]);
                            }
                        }
                    }
                }
            },
            None => {
                proof {
                    lemma_member_nonneg(pre, delimiter, by_prefix, key@);
                    assert(!first_seen(pre, delimiter, by_prefix).contains(key@)) by {
                        if first_seen(pre, delimiter, by_prefix).contains(key@) {
                            let g = choose|g: int| 0 <= g < first_seen(pre, delimiter, by_prefix).len() && first_seen(pre, delimiter, by_prefix)[g] == key@;
                            assert(old_out[g].fix@ == key@);
                        }
                    }
                    assert(member_memory(pre, delimiter, by_prefix, key@) == 0) by {
                        lemma_absent_key(pre, delimiter, by_prefix, key@);
                    }
                }
                let ng = ContainerGroup {
                    fix: key,
                    memory_bytes: rec.memory_bytes,
                    cpu_milli_percent: rec.cpu_milli_percent,
                    containers: 1,
                };
                out.push(ng);
                proof {
                    lemma_absent_key(pre, delimiter, by_prefix, key@);
                    assert forall|i: int| 0 <= i < out@.len() implies (#[trigger] out@[i]).fix@
                        == first_seen(cur, delimiter, by_prefix)[i] && folds(out@[i], cur, delimiter, by_prefix) by {
                        if i < old_out.len() {
                            assert(out@[i] == old_out[i]);
                            assert(first_seen(pre, delimiter, by_prefix).contains(old_out[i].fix@));
                            assert(old_out[i].fix@ != key@);
                        }
                    }
                }
            },
        }
        j = j + 1;
    }
    assert(stats@.subrange(0, j as int) =~= stats@);
    out
}

/// A key that no record has gathers nothing.
proof fn lemma_absent_key(s: Seq<ContainerStats>, d: char, by_prefix: bool, k: Seq<char>)
    requires
        !first_seen(s, d, by_prefix).contains(k),
    ensures
        member_memory(s, d, by_prefix, k) == 0,
        member_cpu(s, d, by_prefix, k) == 0,
        member_count(s, d, by_prefix, k) == 0,
    decreases s.len(),
{
    if s.len() > 0 {
        let p = s.drop_last();
        lemma_first_seen(p, d, by_prefix);
        lemma_first_seen(s, d, by_prefix);
        if first_seen(p, d, by_prefix).contains(k) {
            let j = choose|j: int| 0 <= j < p.len() && key_of(#[trigger] p[j], d, by_prefix) == k;
            assert(s[j] == p[j]);
        }
        assert(key_of(s[s.len() - 1], d, by_prefix) != k);
        lemma_absent_key(p, d, by_prefix, k);
    }
}

/// A record that carries a memory figure to order by.
pub trait MemoryRecord: Sized {
    spec fn spec_memory(&self) -> u64;

    fn memory(&self) -> (r: u64)
        ensures
            r == self.spec_memory(),
    ;
}

impl MemoryRecord for ContainerStats {
    open spec fn spec_memory(&self) -> u64 {
        self.memory_bytes
    }

    fn memory(&self) -> (r: u64) {
        self.memory_bytes
    }
}

impl MemoryRecord for ContainerGroup {
    open spec fn spec_memory(&self) -> u64 {
        self.memory_bytes
    }

    fn memory(&self) -> (r: u64) {
        self.memory_bytes
    }
}

/// `out` places the records of `inp` by `perm` (`out[k]` is `inp[perm[k]]`,
/// each position of `inp` used once), non-increasing by memory, and records of
/// equal memory keep their relative order.
pub open spec fn stable_arrangement<T: MemoryRecord>(out: Seq<T>, inp: Seq<T>, perm: Seq<int>) -> bool {
    &&& out.len() == inp.len()
    &&& perm.len() == inp.len()
    &&& forall|k: int| 0 <= k < perm.len() ==> 0 <= #[trigger] perm[k] < inp.len()
    &&& forall|a: int, b: int| 0 <= a < b < perm.len() ==> perm[a] != perm[b]
    &&& forall|k: int| 0 <= k < out.len() ==> #[trigger] out[k] == inp[perm[k]]
    &&& forall|a: int, b: int|
        0 <= a < b < out.len() ==> (#[trigger] out[a]).spec_memory() >= (#[trigger] out[b]).spec_memory()
    &&& forall|a: int, b: int|
        0 <= a < b < out.len() && (#[trigger] out[a]).spec_memory() == (#[trigger] out[b]).spec_memory()
            ==> perm[a] < perm[b]
}

/// Whether `out` is the stable descending-by-memory ordering of `inp`.
pub open spec fn sorted_by_memory<T: MemoryRecord>(out: Seq<T>, inp: Seq<T>) -> bool {
    exists|perm: Seq<int>| stable_arrangement(out, inp, perm)
}

/// Orders records by memory, largest first; records of equal memory keep
/// their relative order.
pub fn sort_by_memory<T: MemoryRecord>(v: Vec<T>) -> (r: Vec<T>)
    ensures
        sorted_by_memory(r@, v@),
{
    let ghost inp = v@;
    let ghost n = v@.len() as int;
    let mut rest = v;
    let mut out: Vec<T> = Vec::new();
    let ghost mut perm: Seq<int> = Seq::empty();
    while rest.len() > 0
        invariant
            n == inp.len(),
            rest@ == inp.subrange(0, rest@.len() as int),
            out@.len() + rest@.len() == n,
            perm.len() == out@.len(),
            forall|k: int| 0 <= k < perm.len() ==> rest@.len() <= #[trigger] perm[k] < n,
            forall|a: int, b: int| 0 <= a < b < perm.len() ==> perm[a] != perm[b],
            forall|k: int| 0 <= k < out@.len() ==> #[trigger] out@[k] == inp[perm[k]],
            forall|a: int, b: int|
                0 <= a < b < out@.len() ==> (#[trigger] out@[a]).spec_memory() >= (
                #[trigger] out@[b]).spec_memory(),
            forall|a: int, b: int|
                0 <= a < b < out@.len() && (#[trigger] out@[a]).spec_memory() == (
                #[trigger] out@[b]).spec_memory() ==> perm[a] < perm[b],
        decreases rest@.len(),
    {
        let x = rest.pop().unwrap();
        let ghost xi = rest@.len() as int;
        assert(x == inp[xi]);
        let m = x.memory();
        let mut p: usize = 0;
        while p < out.len()
            invariant
                p <= out@.len(),
                m == x.spec_memory(),
                forall|k: int| 0 <= k < p ==> (#[trigger] out@[k]).spec_memory() > m,
            ensures
                p <= out@.len(),
                forall|k: int| 0 <= k < p ==> (#[trigger] out@[k]).spec_memory() > m,
                p == out@.len() || out@[p as int].spec_memory() <= m,
            decreases out@.len() - p,
        {
            if out[p].memory() <= m {
                break;
            }
            p = p + 1;
        }
        let ghost old_out = out@;
        let ghost old_perm = perm;
        out.insert(p, x);
        proof {
            perm = old_perm.insert(p as int, xi);
            assert(rest@ =~= inp.subrange(0, rest@.len() as int));
            assert forall|k: int| 0 <= k < perm.len() implies rest@.len() <= #[trigger] perm[k] < n by {
                if k < p {
                    assert(perm[k] == old_perm[k]);
                } else if k > p {
                    assert(perm[k] == old_perm[k - 1]);
                }
            }
            assert forall|a: int, b: int| 0 <= a < b < perm.len() implies perm[a] != perm[b] by {
                if a < p && b < p {
                    assert(perm[a] == old_perm[a] && perm[b] == old_perm[b]);
                } else if a < p && b == p {
                    assert(perm[a] == old_perm[a]);
                } else if a < p && b > p {
                    assert(perm[a] == old_perm[a] && perm[b] == old_perm[b - 1]);
                } else if a == p {
                    assert(perm[b] == old_perm[b - 1]);
                } else {
                    assert(perm[a] == old_perm[a - 1] && perm[b] == old_perm[b - 1]);
                }
            }
            assert forall|k: int| 0 <= k < out@.len() implies #[trigger] out@[k] == inp[perm[k]] by {
                if k < p {
                    assert(out@[k] == old_out[k] && perm[k] == old_perm[k]);
                } else if k > p {
                    assert(out@[k] == old_out[k - 1] && perm[k] == old_perm[k - 1]);
                }
            }
            assert forall|a: int, b: int| 0 <= a < b < out@.len() implies (#[trigger] out@[a]).spec_memory()
                >= (#[trigger] out@[b]).spec_memory() by {
                if a < p && b < p {
                    assert(out@[a] == old_out[a] && out@[b] == old_out[b]);
                } else if a < p && b == p {
                    assert(out@[a] == old_out[a]);
                } else if a < p && b > p {
                    assert(out@[a] == old_out[a] && out@[b] == old_out[b - 1]);
                } else if a == p {
                    assert(out@[b] == old_out[b - 1]);
                    if b - 1 > p {
                        assert(old_out[p as int].spec_memory() >= old_out[b - 1].spec_memory());
                    }
                } else {
                    assert(out@[a] == old_out[a - 1] && out@[b] == old_out[b - 1]);
                }
            }
            assert forall|a: int, b: int|
                0 <= a < b < out@.len() && (#[trigger] out@[a]).spec_memory() == (
                #[trigger] out@[b]).spec_memory() implies perm[a] < perm[b] by {
                if a < p && b < p {
                    assert(out@[a] == old_out[a] && out@[b] == old_out[b]);
                    assert(perm[a] == old_perm[a] && perm[b] == old_perm[b]);
                } else if a < p && b == p {
                    assert(out@[a] == old_out[a]);
                } else if a < p && b > p {
                    assert(out@[a] == old_out[a] && out@[b] == old_out[b - 1]);
                    assert(perm[a] == old_perm[a] && perm[b] == old_perm[b - 1]);
                } else if a == p {
                    assert(out@[b] == old_out[b - 1]);
                    assert(perm[b] == old_perm[b - 1]);
                } else {
                    assert(out@[a] == old_out[a - 1] && out@[b] == old_out[b - 1]);
                    assert(perm[a] == old_perm[a - 1] && perm[b] == old_perm[b - 1]);
                }
            }
        }
    }
    assert(stable_arrangement(out@, inp, perm));
    out
}

/// Which transformations to apply to the collected records.
#[derive(Clone, Copy, Debug, PartialEq, Eq, Structural)]
pub struct TransformOptions {
    /// Report only the summed memory of the records that pass the filter.
    pub total: bool,
    pub group_by_prefix: bool,
    pub group_by_suffix: bool,
    pub delimiter: char,
    /// Order the result by memory, largest first.
    pub sort: bool,
}

/// The result handed to presentation: exactly one of a total, groups, or records.
pub enum Report {
    Total(u64),
    Groups(Vec<ContainerGroup>),
    Records(Vec<ContainerStats>),
}

/// Whether `gs` is the grouping of `s` by key.
pub open spec fn groups_of(gs: Seq<ContainerGroup>, s: Seq<ContainerStats>, d: char, by_prefix: bool) -> bool {
    &&& gs.len() == first_seen(s, d, by_prefix).len()
    &&& forall|i: int|
        0 <= i < gs.len() ==> (#[trigger] gs[i]).fix@ == first_seen(s, d, by_prefix)[i] && folds(
            gs[i],
            s,
            d,
            by_prefix,
        )
}

/// The records that survive the optional name filter.
pub open spec fn filtered(s: Seq<ContainerStats>, pattern: Option<&NamePattern>) -> Seq<ContainerStats> {
    match pattern {
        Some(p) => kept_by(s, p.text()),
        None => s,
    }
}

/// Whether the filter, if any, reaches a verdict on every name.
pub open spec fn filter_decides(s: Seq<ContainerStats>, pattern: Option<&NamePattern>) -> bool {
    match pattern {
        Some(p) => decided_for_all(s, p.text()),
        None => true,
    }
}

/// What the transformations make of the filtered records `f`.
pub open spec fn reports(r: Report, f: Seq<ContainerStats>, o: TransformOptions) -> bool {
    if o.total {
        r == Report::Total(saturate(memory_sum(f)) as u64)
    } else if o.group_by_prefix || o.group_by_suffix {
        match r {
            Report::Groups(gs) => if o.sort {
                exists|unsorted: Seq<ContainerGroup>|
                    groups_of(unsorted, f, o.delimiter, o.group_by_prefix) && sorted_by_memory(
                        gs@,
                        unsorted,
                    )
            } else {
                groups_of(gs@, f, o.delimiter, o.group_by_prefix)
            },
            _ => false,
        }
    } else {
        match r {
            Report::Records(v) => if o.sort {
                sorted_by_memory(v@, f)
            } else {
                v@ == f
            },
            _ => false,
        }
    }
}

/// Applies, in order: the name filter, then either the total (which skips
/// everything after it), or grouping (prefix wins over suffix), then sorting.
/// Fails with `None` only where the filter's matcher gives up on a name.
pub fn transform(stats: Vec<ContainerStats>, pattern: Option<&NamePattern>, options: TransformOptions) -> (r: Option<Report>)
    ensures
        r is Some <==> filter_decides(stats@, pattern),
        r matches Some(rep) ==> reports(rep, filtered(stats@, pattern), options),
{
    let records = match pattern {
        Some(p) => match filter(stats, p) {
            Some(v) => v,
            None => return None,
        },
        None => stats,
    };
    if options.total {
        return Some(Report::Total(total_memory(&records)));
    }
    if options.group_by_prefix || options.group_by_suffix {
        let gs = group(&records, options.delimiter, options.group_by_prefix);
        if options.sort {
            let ghost unsorted = gs@;
            let sorted = sort_by_memory(gs);
            assert(groups_of(unsorted, records@, options.delimiter, options.group_by_prefix));
            return Some(Report::Groups(sorted));
        }
        return Some(Report::Groups(gs));
    }
    if options.sort {
        return Some(Report::Records(sort_by_memory(records)));
    }
    Some(Report::Records(records))
}

} // verus!
