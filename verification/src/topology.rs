//! Sizing and pinning the thread pool from the machine's CPU topology.

use crate::bits::word_bit;
use crate::par::build_global_pool;
use vstd::prelude::*;
use vstd::slice::slice_subrange;

verus! {

/// Most CPUs that an affinity mask covers.
pub const MASK_CPUS: usize = 1024;

/// Smallest allocation that is worth huge pages.
pub const HUGE_PAGE: usize = 2097152;

/// Granularity of a memory advice.
pub const SMALL_PAGE: usize = 4096;

/// The decimal value of a run of digits.
pub open spec fn digits_value(s: Seq<u8>) -> nat
    decreases s.len(),
{
    if s.len() == 0 {
        0
    } else {
        10 * digits_value(s.drop_last()) + (s.last() - 48) as nat
    }
}

/// Whether every byte is a decimal digit.
pub open spec fn all_digits(s: Seq<u8>) -> bool {
    forall|i: int| 0 <= i < s.len() ==> 48 <= #[trigger] s[i] <= 57
}

/// The number that a text stands for: digits, with a plus sign in front if need be, of
/// a value that fits a machine word.
pub open spec fn number(s: Seq<u8>) -> Option<nat> {
    let d = if s.len() > 0 && s[0] == 43 {
        s.skip(1)
    } else {
        s
    };
    if d.len() > 0 && all_digits(d) && digits_value(d) <= usize::MAX {
        Some(digits_value(d))
    } else {
        None
    }
}

/// The first place at or after `from` that holds `sep`, or the end.
pub open spec fn cut(s: Seq<u8>, sep: u8, from: int) -> int
    decreases s.len() - from,
{
    if from < 0 || from >= s.len() {
        s.len() as int
    } else if s[from] == sep {
        from
    } else {
        cut(s, sep, from + 1)
    }
}

/// The range that one entry of a CPU list stands for: `a-b`, or a single number.
pub open spec fn range_of(p: Seq<u8>) -> Option<(nat, nat)> {
    let dash = cut(p, 45, 0);
    if dash < p.len() {
        match (number(p.subrange(0, dash)), number(p.subrange(dash + 1, p.len() as int))) {
            (Some(a), Some(b)) => Some((a, b)),
            _ => None,
        }
    } else {
        match number(p) {
            Some(a) => Some((a, a)),
            None => None,
        }
    }
}

/// The ranges of a comma-separated list, from byte `from` on; `None` where an entry
/// cannot be read.
pub open spec fn ranges_from(s: Seq<u8>, from: int) -> Option<Seq<(nat, nat)>>
    decreases s.len() - from,
    when 0 <= from <= s.len()
    via ranges_from_decreases
{
    let c = cut(s, 44, from);
    match range_of(s.subrange(from, c)) {
        None => None,
        Some(r) => if c >= s.len() {
            Some(seq![r])
        } else {
            match ranges_from(s, c + 1) {
                None => None,
                Some(t) => Some(seq![r] + t),
            }
        },
    }
}

#[via_fn]
proof fn ranges_from_decreases(s: Seq<u8>, from: int) {
    lemma_cut(s, 44, from);
}

proof fn lemma_cut(s: Seq<u8>, sep: u8, from: int)
    requires
        0 <= from <= s.len(),
    ensures
        from <= cut(s, sep, from) <= s.len(),
        cut(s, sep, from) < s.len() ==> s[cut(s, sep, from)] == sep,
    decreases s.len() - from,
{
    if from < s.len() && s[from] != sep {
        lemma_cut(s, sep, from + 1);
    }
}

proof fn lemma_value_grows(s: Seq<u8>, n: int)
    requires
        all_digits(s),
        0 <= n <= s.len(),
    ensures
        digits_value(s.take(n)) <= digits_value(s),
    decreases s.len() - n,
{
    if n < s.len() {
        lemma_value_grows(s, n + 1);
        assert(s.take(n + 1).drop_last() =~= s.take(n));
    } else {
        assert(s.take(n) =~= s);
    }
}

/// Reads a number.
pub fn parse_usize(s: &[u8]) -> (r: Option<usize>)
    ensures
        match r {
            Some(v) => number(s@) == Some(v as nat),
            None => number(s@) is None,
        },
{
    let len: usize = s.len();
    let start: usize = if len > 0 && s[0] == 43 {
        1
    } else {
        0
    };
    let ghost d = s@.skip(start as int);
    proof {
        if start == 0 {
            assert(d =~= s@);
        }
    }
    if start == len {
        return None;
    }
    let mut v: usize = 0;
    let mut i: usize = start;
    while i < len
        invariant
            len == s@.len(),
            start <= i <= len,
            d == s@.skip(start as int),
            number(s@) == (if d.len() > 0 && all_digits(d) && digits_value(d) <= usize::MAX {
                Some(digits_value(d))
            } else {
                None
            }),
            v == digits_value(d.take(i - start)),
            all_digits(d.take(i - start)),
        decreases len - i,
    {
        let b: u8 = s[i];
        proof {
            assert(d[i - start] == b);
            assert(d.take(i + 1 - start).drop_last() =~= d.take(i - start));
        }
        if b < 48 || b > 57 {
            return None;
        }
        let digit: usize = (b - 48) as usize;
        if v > usize::MAX / 10 || 10 * v > usize::MAX - digit {
            proof {
                if all_digits(d) {
                    lemma_value_grows(d, i + 1 - start);
                }
            }
            return None;
        }
        v = 10 * v + digit;
        proof {
            assert(all_digits(d.take(i + 1 - start))) by {
                assert forall|j: int| 0 <= j < i + 1 - start implies 48 <= #[trigger] d.take(
                    i + 1 - start,
                )[j] <= 57 by {
                    if j < i - start {
                        assert(d.take(i - start)[j] == d[j]);
                    }
                }
            }
        }
        i = i + 1;
    }
    proof {
        assert(d.take(len - start) =~= d);
    }
    Some(v)
}

/// The first place at or after `from` that holds `sep`, or the end.
fn find(s: &[u8], sep: u8, from: usize) -> (c: usize)
    requires
        from <= s@.len(),
    ensures
        c == cut(s@, sep, from as int),
        from <= c <= s@.len(),
{
    let len: usize = s.len();
    let mut i: usize = from;
    while i < len && s[i] != sep
        invariant
            len == s@.len(),
            from <= i <= len,
            cut(s@, sep, from as int) == cut(s@, sep, i as int),
        decreases len - i,
    {
        i = i + 1;
    }
    i
}

/// Reads one entry of a CPU list.
pub fn parse_range(p: &[u8]) -> (r: Option<(usize, usize)>)
    ensures
        match r {
            Some((a, b)) => range_of(p@) == Some((a as nat, b as nat)),
            None => range_of(p@) is None,
        },
{
    let len: usize = p.len();
    let dash: usize = find(p, 45, 0);
    if dash < len {
        match (parse_usize(slice_subrange(p, 0, dash)), parse_usize(slice_subrange(p, dash + 1, len))) {
            (Some(a), Some(b)) => Some((a, b)),
            _ => None,
        }
    } else {
        match parse_usize(p) {
            Some(a) => Some((a, a)),
            None => None,
        }
    }
}

/// Ranges as mathematical numbers.
pub open spec fn range_views(v: Seq<(usize, usize)>) -> Seq<(nat, nat)> {
    v.map_values(|r: (usize, usize)| (r.0 as nat, r.1 as nat))
}

/// Reads a CPU list such as `0-3,8`, without surrounding blanks.
pub fn parse_cpu_list(s: &[u8]) -> (r: Option<Vec<(usize, usize)>>)
    ensures
        match r {
            Some(v) => ranges_from(s@, 0) == Some(range_views(v@)),
            None => ranges_from(s@, 0) is None,
        },
{
    let len: usize = s.len();
    let mut out: Vec<(usize, usize)> = Vec::new();
    let mut from: usize = 0;
    let mut done: bool = false;
    proof {
        assert(range_views(out@) =~= Seq::empty());
        if ranges_from(s@, 0) is Some {
            assert(range_views(out@) + ranges_from(s@, 0)->Some_0 =~= ranges_from(s@, 0)->Some_0);
        }
    }
    while !done
        invariant
            len == s@.len(),
            from <= len,
            !done ==> (ranges_from(s@, 0) is Some) == (ranges_from(s@, from as int) is Some),
            !done && ranges_from(s@, 0) is Some ==> ranges_from(s@, 0)->Some_0 == range_views(out@)
                + ranges_from(s@, from as int)->Some_0,
            done ==> ranges_from(s@, 0) == Some(range_views(out@)),
        decreases
            (if done {
                0int
            } else {
                len - from + 1
            }),
    {
        let c: usize = find(s, 44, from);
        match parse_range(slice_subrange(s, from, c)) {
            None => {
                return None;
            },
            Some(r) => {
                let ghost before = out@;
                out.push(r);
                proof {
                    let head = seq![(r.0 as nat, r.1 as nat)];
                    assert(range_views(out@) =~= range_views(before) + head);
                    if c < len && ranges_from(s@, c + 1) is Some {
                        let t = ranges_from(s@, c + 1)->Some_0;
                        assert(range_views(before) + (head + t) =~= (range_views(before) + head)
                            + t);
                    }
                }
                if c >= len {
                    done = true;
                } else {
                    from = c + 1;
                }
            },
        }
    }
    Some(out)
}

/// Whether a CPU is in one of the ranges.
pub open spec fn listed(ranges: Seq<(usize, usize)>, c: int) -> bool {
    exists|j: int| 0 <= j < ranges.len() && (#[trigger] ranges[j]).0 <= c <= ranges[j].1
}

/// The listed CPUs below `n`, ascending and each once.
pub open spec fn cpus_upto(ranges: Seq<(usize, usize)>, n: nat) -> Seq<usize>
    decreases n,
{
    if n == 0 {
        Seq::empty()
    } else if listed(ranges, n - 1) {
        cpus_upto(ranges, (n - 1) as nat).push((n - 1) as usize)
    } else {
        cpus_upto(ranges, (n - 1) as nat)
    }
}

/// The group holds exactly the listed CPUs below `n`.
pub proof fn lemma_cpus_upto(ranges: Seq<(usize, usize)>, n: nat, c: usize)
    requires
        n <= usize::MAX,
    ensures
        cpus_upto(ranges, n).contains(c) <==> c < n && listed(ranges, c as int),
    decreases n,
{
    if n > 0 {
        let m = (n - 1) as nat;
        lemma_cpus_upto(ranges, m, c);
        let (a, b) = (cpus_upto(ranges, m), cpus_upto(ranges, n));
        if listed(ranges, m as int) {
            if a.contains(c) {
                let i = a.index_of(c);
                assert(b[i] == c);
            }
            if c == m {
                assert(b[a.len() as int] == c);
            }
            if b.contains(c) {
                let i = b.index_of(c);
                if i < a.len() {
                    assert(a[i] == c);
                }
            }
        }
    }
}

fn in_ranges(ranges: &Vec<(usize, usize)>, c: usize) -> (r: bool)
    ensures
        r == listed(ranges@, c as int),
{
    let n: usize = ranges.len();
    let mut j: usize = 0;
    while j < n
        invariant
            j <= n,
            n == ranges@.len(),
            forall|i: int|
                0 <= i < j ==> !((#[trigger] ranges@[i]).0 <= c <= ranges@[i].1),
        decreases n - j,
    {
        let (a, b) = ranges[j];
        if a <= c && c <= b {
            proof {
                assert(ranges@[j as int] == (a, b));
            }
            return true;
        }
        j = j + 1;
    }
    false
}

/// The listed CPUs below `n`.
pub fn cpus_below(ranges: &Vec<(usize, usize)>, n: usize) -> (g: Vec<usize>)
    ensures
        g@ == cpus_upto(ranges@, n as nat),
{
    let mut g: Vec<usize> = Vec::new();
    let mut c: usize = 0;
    while c < n
        invariant
            c <= n,
            g@ == cpus_upto(ranges@, c as nat),
        decreases n - c,
    {
        if in_ranges(ranges, c) {
            g.push(c);
        }
        c = c + 1;
    }
    g
}

/// The CPUs that one sibling list names; `None` where it is missing or cannot be read.
pub open spec fn sibling_group(list: Option<Vec<u8>>, n: nat) -> Option<Seq<usize>> {
    match list {
        None => None,
        Some(bytes) => match ranges_from(bytes@, 0) {
            None => None,
            Some(rs) => Some(nat_cpus_upto(rs, n)),
        },
    }
}

/// [`cpus_upto`] over mathematical ranges.
pub open spec fn nat_cpus_upto(ranges: Seq<(nat, nat)>, n: nat) -> Seq<usize>
    decreases n,
{
    if n == 0 {
        Seq::empty()
    } else if exists|j: int|
        0 <= j < ranges.len() && (#[trigger] ranges[j]).0 <= n - 1 <= ranges[j].1 {
        nat_cpus_upto(ranges, (n - 1) as nat).push((n - 1) as usize)
    } else {
        nat_cpus_upto(ranges, (n - 1) as nat)
    }
}

proof fn lemma_same_cpus(ranges: Seq<(usize, usize)>, n: nat)
    ensures
        cpus_upto(ranges, n) == nat_cpus_upto(range_views(ranges), n),
    decreases n,
{
    if n > 0 {
        lemma_same_cpus(ranges, (n - 1) as nat);
        let v = range_views(ranges);
        if listed(ranges, n - 1) {
            let j = choose|j: int|
                0 <= j < ranges.len() && (#[trigger] ranges[j]).0 <= n - 1 <= ranges[j].1;
            assert(v[j].0 <= n - 1 <= v[j].1);
        }
        if exists|j: int| 0 <= j < v.len() && (#[trigger] v[j]).0 <= n - 1 <= v[j].1 {
            let j = choose|j: int| 0 <= j < v.len() && (#[trigger] v[j]).0 <= n - 1 <= v[j].1;
            assert(ranges[j].0 <= n - 1 <= ranges[j].1);
        }
    }
}

/// Whether a CPU is in one of the groups.
pub open spec fn covered(groups: Seq<Seq<usize>>, c: int) -> bool {
    exists|i: int| 0 <= i < groups.len() && (#[trigger] groups[i]).contains(c as usize)
}

/// The groups of the first `cpu` CPUs: each CPU that no earlier group holds brings the
/// group that its own list names.
pub open spec fn groups_upto(lists: Seq<Option<Vec<u8>>>, n: nat, cpu: nat) -> Option<
    Seq<Seq<usize>>,
>
    decreases cpu,
{
    if cpu == 0 {
        Some(Seq::empty())
    } else {
        match groups_upto(lists, n, (cpu - 1) as nat) {
            None => None,
            Some(gs) => if covered(gs, cpu - 1) {
                Some(gs)
            } else {
                match sibling_group(lists[cpu - 1], n) {
                    None => None,
                    Some(g) => Some(gs.push(g)),
                }
            },
        }
    }
}

/// Groups as sequences.
pub open spec fn group_views(v: Seq<Vec<usize>>) -> Seq<Seq<usize>> {
    v.map_values(|g: Vec<usize>| g@)
}

/// One group per physical core, from the sibling list of each CPU. Only the lists of
/// CPUs that no earlier group holds are looked at; a missing or unreadable one among
/// them gives `None`.
pub fn sibling_groups(lists: &Vec<Option<Vec<u8>>>) -> (r: Option<Vec<Vec<usize>>>)
    ensures
        match r {
            Some(v) => groups_upto(lists@, lists@.len(), lists@.len()) == Some(group_views(v@)),
            None => groups_upto(lists@, lists@.len(), lists@.len()) is None,
        },
{
    let n: usize = lists.len();
    let mut groups: Vec<Vec<usize>> = Vec::new();
    let mut cpu: usize = 0;
    proof {
        assert(group_views(groups@) =~= Seq::empty());
    }
    while cpu < n
        invariant
            cpu <= n,
            n == lists@.len(),
            groups_upto(lists@, n as nat, cpu as nat) == Some(group_views(groups@)),
        decreases n - cpu,
    {
        if !in_groups(&groups, cpu) {
            match &lists[cpu] {
                None => {
                    proof {
                        lemma_groups_none(lists@, n as nat, (cpu + 1) as nat, n as nat);
                    }
                    return None;
                },
                Some(bytes) => match parse_cpu_list(bytes.as_slice()) {
                    None => {
                        proof {
                            lemma_groups_none(lists@, n as nat, (cpu + 1) as nat, n as nat);
                        }
                        return None;
                    },
                    Some(ranges) => {
                        let g: Vec<usize> = cpus_below(&ranges, n);
                        let ghost before = groups@;
                        proof {
                            lemma_same_cpus(ranges@, n as nat);
                        }
                        groups.push(g);
                        proof {
                            assert(group_views(groups@) =~= group_views(before).push(g@));
                        }
                    },
                },
            }
        }
        cpu = cpu + 1;
    }
    Some(groups)
}

proof fn lemma_groups_none(lists: Seq<Option<Vec<u8>>>, n: nat, a: nat, b: nat)
    requires
        a <= b,
        groups_upto(lists, n, a) is None,
    ensures
        groups_upto(lists, n, b) is None,
    decreases b,
{
    if a < b {
        lemma_groups_none(lists, n, a, (b - 1) as nat);
    }
}

fn in_groups(groups: &Vec<Vec<usize>>, c: usize) -> (r: bool)
    ensures
        r == covered(group_views(groups@), c as int),
{
    let n: usize = groups.len();
    let mut i: usize = 0;
    while i < n
        invariant
            i <= n,
            n == groups@.len(),
            forall|u: int|
                0 <= u < i ==> !(#[trigger] group_views(groups@)[u]).contains(c as int as usize),
        decreases n - i,
    {
        let m: usize = groups[i].len();
        let mut j: usize = 0;
        while j < m
            invariant
                i < n,
                j <= m,
                n == groups@.len(),
                m == groups@[i as int]@.len(),
                forall|u: int| 0 <= u < j ==> #[trigger] groups@[i as int]@[u] != c,
            decreases m - j,
        {
            if groups[i][j] == c {
                proof {
                    assert(group_views(groups@)[i as int][j as int] == c);
                    assert(group_views(groups@)[i as int].contains(c));
                }
                return true;
            }
            j = j + 1;
        }
        i = i + 1;
    }
    false
}

/// Whether every core has exactly two threads.
pub open spec fn all_pairs(groups: Seq<Vec<usize>>) -> bool {
    forall|i: int| 0 <= i < groups.len() ==> (#[trigger] groups[i])@.len() == 2
}

fn pairs_only(groups: &Vec<Vec<usize>>) -> (r: bool)
    ensures
        r == all_pairs(groups@),
{
    let n: usize = groups.len();
    let mut i: usize = 0;
    while i < n
        invariant
            i <= n,
            n == groups@.len(),
            forall|j: int| 0 <= j < i ==> (#[trigger] groups@[j])@.len() == 2,
        decreases n - i,
    {
        if groups[i].len() != 2 {
            return false;
        }
        i = i + 1;
    }
    true
}

/// Sibling `s` of every core, in core order.
fn siblings(groups: &Vec<Vec<usize>>, s: usize) -> (r: Vec<usize>)
    requires
        all_pairs(groups@),
        s < 2,
    ensures
        r@.len() == groups@.len(),
        forall|i: int| 0 <= i < r@.len() ==> #[trigger] r@[i] == groups@[i]@[s as int],
{
    let n: usize = groups.len();
    let mut r: Vec<usize> = Vec::with_capacity(n);
    let mut i: usize = 0;
    while i < n
        invariant
            i <= n,
            n == groups@.len(),
            all_pairs(groups@),
            s < 2,
            r@.len() == i,
            forall|j: int| 0 <= j < i ==> #[trigger] r@[j] == groups@[j]@[s as int],
        decreases n - i,
    {
        r.push(groups[i][s]);
        i = i + 1;
    }
    r
}

/// Whether the pinned pool applies: it is not switched off, as many threads are asked
/// for as there are logical CPUs, and every core has two of them.
pub open spec fn pinned_shape(
    switched_off: bool,
    want: Option<usize>,
    logical: usize,
    groups: Option<Vec<Vec<usize>>>,
) -> bool {
    &&& !switched_off
    &&& want == Some(logical)
    &&& groups matches Some(gs) && gs@.len() > 0 && logical == 2 * gs@.len() && all_pairs(gs@)
}

/// The CPU of each worker of a pinned pool: the first sibling of every core, then the
/// second ones. `None` where the pinned pool does not apply.
pub fn pinned_order(
    switched_off: bool,
    want: Option<usize>,
    logical: usize,
    groups: Option<Vec<Vec<usize>>>,
) -> (r: Option<Vec<usize>>)
    ensures
        (r is Some) == pinned_shape(switched_off, want, logical, groups),
        r matches Some(order) ==> order@.len() == logical && forall|i: int|
            0 <= i < order@.len() ==> #[trigger] order@[i] == {
                let cores = groups->Some_0@.len() as int;
                groups->Some_0@[i % cores]@[i / cores]
            },
{
    if switched_off {
        return None;
    }
    match want {
        Some(w) if w == logical => {},
        _ => {
            return None;
        },
    }
    match groups {
        None => None,
        Some(gs) => {
            let cores: usize = gs.len();
            if cores == 0 || logical % 2 != 0 || logical / 2 != cores || !pairs_only(&gs) {
                return None;
            }
            let mut order: Vec<usize> = siblings(&gs, 0);
            let mut second: Vec<usize> = siblings(&gs, 1);
            order.append(&mut second);
            proof {
                assert forall|i: int| 0 <= i < order@.len() implies #[trigger] order@[i]
                    == gs@[i % (cores as int)]@[i / (cores as int)] by {
                    if i < cores {
                        crate::num::lemma_row_div(0, i, cores as int);
                    } else {
                        crate::num::lemma_row_div(1, i - cores, cores as int);
                    }
                }
            }
            Some(order)
        },
    }
}

/// Whether CPU `c` is set in an affinity mask.
pub open spec fn mask_has(mask: Seq<u64>, c: int) -> bool {
    word_bit(mask[c / 64], (c % 64) as nat)
}

/// The affinity mask of a single CPU, as far as masks go.
pub fn pin_mask(cpu: usize) -> (r: Option<[u64; 16]>)
    ensures
        (r is Some) == (cpu < MASK_CPUS),
        r matches Some(m) ==> forall|c: int|
            0 <= c < MASK_CPUS ==> #[trigger] mask_has(m@, c) == (c == cpu),
{
    if cpu >= MASK_CPUS {
        return None;
    }
    let mut mask: [u64; 16] = [0u64; 16];
    let shift: u64 = (cpu % 64) as u64;
    mask[cpu / 64] = 1u64 << shift;
    proof {
        assert forall|c: int| 0 <= c < MASK_CPUS implies #[trigger] mask_has(mask@, c) == (c
            == cpu) by {
            let i = (c % 64) as u64;
            assert(((1u64 << shift) >> i) & 1 == (if i == shift {
                1u64
            } else {
                0u64
            }) && (0u64 >> i) & 1 == 0) by (bit_vector)
                requires
                    i < 64,
                    shift < 64,
            ;
        }
    }
    Some(mask)
}

/// What follows the last dash of an entry.
pub open spec fn after_dash(p: Seq<u8>) -> Seq<u8>
    decreases p.len(),
{
    let dash = cut(p, 45, 0);
    if 0 <= dash < p.len() {
        after_dash(p.subrange(dash + 1, p.len() as int))
    } else {
        p
    }
}

/// The largest CPU that a list of present CPUs ends an entry with, from byte `from` on;
/// entries that cannot be read do not count.
pub open spec fn highest_from(s: Seq<u8>, from: int) -> nat
    decreases s.len() - from,
    when 0 <= from <= s.len()
    via highest_from_decreases
{
    let c = cut(s, 44, from);
    let here = match number(after_dash(s.subrange(from, c))) {
        Some(v) => v,
        None => 0,
    };
    if c >= s.len() {
        here
    } else {
        let rest = highest_from(s, c + 1);
        if here >= rest {
            here
        } else {
            rest
        }
    }
}

#[via_fn]
proof fn highest_from_decreases(s: Seq<u8>, from: int) {
    lemma_cut(s, 44, from);
}

fn last_number(p: &[u8]) -> (r: usize)
    ensures
        r == match number(after_dash(p@)) {
            Some(v) => v,
            None => 0,
        },
{
    let len: usize = p.len();
    let mut from: usize = 0;
    proof {
        assert(p@.subrange(0, len as int) =~= p@);
    }
    let mut dash: usize = find(p, 45, 0);
    while dash < len
        invariant
            len == p@.len(),
            from <= dash <= len,
            dash == cut(p@, 45, from as int),
            after_dash(p@) == after_dash(p@.subrange(from as int, len as int)),
        decreases len - from,
    {
        proof {
            lemma_cut_sub(p@, 45, from as int, from as int);
            let q = p@.subrange(from as int, len as int);
            assert(q.subrange(dash - from + 1, q.len() as int) =~= p@.subrange(
                dash + 1,
                len as int,
            ));
        }
        from = dash + 1;
        dash = find(p, 45, from);
    }
    let tail: &[u8] = slice_subrange(p, from, len);
    proof {
        lemma_cut_sub(p@, 45, from as int, from as int);
    }
    match parse_usize(tail) {
        Some(v) => v,
        None => 0,
    }
}

/// Cutting a tail finds the same place.
proof fn lemma_cut_sub(s: Seq<u8>, sep: u8, base: int, from: int)
    requires
        0 <= base <= from <= s.len(),
    ensures
        cut(s.subrange(base, s.len() as int), sep, from - base) == cut(s, sep, from) - base,
    decreases s.len() - from,
{
    if from < s.len() && s[from] != sep {
        lemma_cut_sub(s, sep, base, from + 1);
    }
}

/// How many logical CPUs are present, from the list of them; zero where it is missing.
pub fn present_cpus(list: Option<&[u8]>) -> (n: usize)
    requires
        list matches Some(s) ==> highest_from(s@, 0) < usize::MAX,
    ensures
        n == match list {
            Some(s) => highest_from(s@, 0) + 1,
            None => 0,
        },
{
    match list {
        None => 0,
        Some(s) => {
            let len: usize = s.len();
            let mut hi: usize = 0;
            let mut from: usize = 0;
            let mut done: bool = false;
            while !done
                invariant
                    len == s@.len(),
                    from <= len,
                    highest_from(s@, 0) < usize::MAX,
                    done ==> hi == highest_from(s@, 0),
                    !done ==> highest_from(s@, 0) == (if hi >= highest_from(s@, from as int) {
                        hi as nat
                    } else {
                        highest_from(s@, from as int)
                    }),
                decreases
            (if done {
                0int
            } else {
                len - from + 1
            }),
            {
                let c: usize = find(s, 44, from);
                let here: usize = last_number(slice_subrange(s, from, c));
                if here > hi {
                    hi = here;
                }
                if c >= len {
                    done = true;
                } else {
                    from = c + 1;
                }
            }
            hi + 1
        },
    }
}

/// Whether every CPU of every core is within the mask.
pub open spec fn all_in_mask(groups: Seq<Vec<usize>>, mask: Seq<u64>) -> bool {
    forall|i: int, j: int|
        0 <= i < groups.len() && 0 <= j < groups[i]@.len() ==> #[trigger] groups[i]@[j] < MASK_CPUS
            && mask_has(mask, groups[i]@[j] as int)
}

fn within_mask(groups: &Vec<Vec<usize>>, mask: &[u64; 16]) -> (r: bool)
    ensures
        r == all_in_mask(groups@, mask@),
{
    let n: usize = groups.len();
    let mut i: usize = 0;
    while i < n
        invariant
            i <= n,
            n == groups@.len(),
            forall|u: int, v: int|
                0 <= u < i && 0 <= v < groups@[u]@.len() ==> #[trigger] groups@[u]@[v] < MASK_CPUS
                    && mask_has(mask@, groups@[u]@[v] as int),
        decreases n - i,
    {
        let m: usize = groups[i].len();
        let mut j: usize = 0;
        while j < m
            invariant
                i < n,
                j <= m,
                n == groups@.len(),
                m == groups@[i as int]@.len(),
                forall|v: int|
                    0 <= v < j ==> #[trigger] groups@[i as int]@[v] < MASK_CPUS && mask_has(
                        mask@,
                        groups@[i as int]@[v] as int,
                    ),
            decreases m - j,
        {
            let c: usize = groups[i][j];
            proof {
                assert(groups@[i as int]@[j as int] == c);
            }
            if c >= MASK_CPUS {
                return false;
            }
            let shift: u64 = (c % 64) as u64;
            if (mask[c / 64] >> shift) & 1 != 1 {
                return false;
            }
            j = j + 1;
        }
        i = i + 1;
    }
    true
}

/// Whether the two half pools apply: at least two cores of two threads each, all of them
/// present, owned by the global pool and within the process's own mask.
pub open spec fn split_shape(
    switched_off: bool,
    groups: Seq<Vec<usize>>,
    present: usize,
    pool: usize,
    mask: Seq<u64>,
) -> bool {
    &&& !switched_off
    &&& groups.len() >= 2
    &&& all_pairs(groups)
    &&& present == 2 * groups.len()
    &&& pool == 2 * groups.len()
    &&& all_in_mask(groups, mask)
}

/// The CPUs of the two half pools: every core gives its first sibling to one and its
/// second to the other. `None` where the split does not apply.
pub fn smt_split(
    switched_off: bool,
    groups: &Vec<Vec<usize>>,
    present: usize,
    pool: usize,
    mask: &[u64; 16],
) -> (r: Option<(Vec<usize>, Vec<usize>)>)
    ensures
        (r is Some) == split_shape(switched_off, groups@, present, pool, mask@),
        r matches Some((a, b)) ==> a@.len() == groups@.len() && b@.len() == groups@.len()
            && forall|i: int|
            #![trigger a@[i]]
            #![trigger b@[i]]
            0 <= i < groups@.len() ==> a@[i] == groups@[i]@[0] && b@[i] == groups@[i]@[1],
{
    let cores: usize = groups.len();
    if switched_off || cores < 2 || !pairs_only(groups) {
        return None;
    }
    if present % 2 != 0 || present / 2 != cores || pool != present {
        return None;
    }
    if !within_mask(groups, mask) {
        return None;
    }
    Some((siblings(groups, 0), siblings(groups, 1)))
}

/// The physical cores as far as they are available, or what is available where the
/// cores are not known.
pub open spec fn core_count(physical: Option<usize>, available: Option<usize>) -> usize {
    let avail: usize = match available {
        Some(a) => a,
        None => 1,
    };
    match physical {
        Some(p) if p > 0 => if p < avail {
            p
        } else {
            avail
        },
        _ => avail,
    }
}

/// Counts the cores for a pool.
pub fn perf_core_count(physical: Option<usize>, available: Option<usize>) -> (n: usize)
    ensures
        n == core_count(physical, available),
{
    let avail: usize = match available {
        Some(a) => a,
        None => 1,
    };
    match physical {
        Some(p) if p > 0 => {
            if p < avail {
                p
            } else {
                avail
            }
        },
        _ => avail,
    }
}

/// Whether a directory name is that of a CPU: `cpu` and digits.
pub open spec fn cpu_dir(name: Seq<u8>) -> bool {
    &&& name.len() > 3
    &&& name[0] == 99 && name[1] == 112 && name[2] == 117
    &&& forall|i: int| 3 <= i < name.len() ==> 48 <= #[trigger] name[i] <= 57
}

/// Whether a directory name is that of a CPU.
pub fn is_cpu_dir(name: &[u8]) -> (r: bool)
    ensures
        r == cpu_dir(name@),
{
    let n: usize = name.len();
    if n <= 3 || name[0] != 99 || name[1] != 112 || name[2] != 117 {
        return false;
    }
    let mut i: usize = 3;
    while i < n
        invariant
            3 <= i <= n,
            n == name@.len(),
            forall|j: int| 3 <= j < i ==> 48 <= #[trigger] name@[j] <= 57,
        decreases n - i,
    {
        if name[i] < 48 || name[i] > 57 {
            return false;
        }
        i = i + 1;
    }
    true
}

/// The distinct pairs of package and core.
pub open spec fn core_set(ids: Seq<(Vec<u8>, Vec<u8>)>) -> Set<(Seq<u8>, Seq<u8>)>
    decreases ids.len(),
{
    if ids.len() == 0 {
        Set::empty()
    } else {
        core_set(ids.drop_last()).insert((ids.last().0@, ids.last().1@))
    }
}

proof fn lemma_core_set(ids: Seq<(Vec<u8>, Vec<u8>)>, x: (Seq<u8>, Seq<u8>))
    ensures
        core_set(ids).finite(),
        core_set(ids).contains(x) <==> exists|j: int|
            0 <= j < ids.len() && ((#[trigger] ids[j]).0@, ids[j].1@) == x,
    decreases ids.len(),
{
    if ids.len() > 0 {
        let rest = ids.drop_last();
        lemma_core_set(rest, x);
        if core_set(rest).contains(x) {
            let j = choose|j: int|
                0 <= j < rest.len() && ((#[trigger] rest[j]).0@, rest[j].1@) == x;
            assert((ids[j].0@, ids[j].1@) == x);
        }
        if exists|j: int| 0 <= j < ids.len() && ((#[trigger] ids[j]).0@, ids[j].1@) == x {
            let j = choose|j: int| 0 <= j < ids.len() && ((#[trigger] ids[j]).0@, ids[j].1@) == x;
            if j < rest.len() {
                assert((rest[j].0@, rest[j].1@) == x);
            }
        }
    }
}

fn same_bytes(a: &Vec<u8>, b: &Vec<u8>) -> (r: bool)
    ensures
        r == (a@ == b@),
{
    let n: usize = a.len();
    if b.len() != n {
        return false;
    }
    let mut i: usize = 0;
    while i < n
        invariant
            i <= n,
            n == a@.len(),
            n == b@.len(),
            forall|j: int| 0 <= j < i ==> #[trigger] a@[j] == b@[j],
        decreases n - i,
    {
        if a[i] != b[i] {
            return false;
        }
        i = i + 1;
    }
    proof {
        assert(a@ =~= b@);
    }
    true
}

/// How many physical cores the CPUs belong to; `None` where none is known.
pub fn count_physical_cores(ids: &Vec<(Vec<u8>, Vec<u8>)>) -> (r: Option<usize>)
    ensures
        match r {
            Some(n) => n > 0 && n == core_set(ids@).len(),
            None => core_set(ids@).len() == 0,
        },
{
    let n: usize = ids.len();
    let mut count: usize = 0;
    let mut i: usize = 0;
    proof {
        assert(core_set(ids@.take(0)) =~= Set::empty());
    }
    while i < n
        invariant
            i <= n,
            n == ids@.len(),
            count <= i,
            count == core_set(ids@.take(i as int)).len(),
        decreases n - i,
    {
        let ghost seen = ids@.take(i as int);
        let ghost x = (ids@[i as int].0@, ids@[i as int].1@);
        let mut fresh: bool = true;
        let mut j: usize = 0;
        while j < i
            invariant
                j <= i < n,
                n == ids@.len(),
                seen == ids@.take(i as int),
                x == (ids@[i as int].0@, ids@[i as int].1@),
                fresh == forall|u: int| 0 <= u < j ==> ((#[trigger] seen[u]).0@, seen[u].1@) != x,
            decreases i - j,
        {
            if same_bytes(&ids[j].0, &ids[i].0) && same_bytes(&ids[j].1, &ids[i].1) {
                proof {
                    assert((seen[j as int].0@, seen[j as int].1@) == x);
                }
                fresh = false;
            }
            j = j + 1;
        }
        proof {
            lemma_core_set(seen, x);
            assert(ids@.take(i + 1).drop_last() =~= seen);
        }
        if fresh {
            count = count + 1;
        }
        i = i + 1;
    }
    proof {
        assert(ids@.take(n as int) =~= ids@);
    }
    if count == 0 {
        None
    } else {
        Some(count)
    }
}

/// The part of an allocation that huge pages are asked for: from its first page
/// boundary to its end. `None` for a small allocation, or where nothing is left.
pub fn hugepage_range(addr: usize, bytes: usize, switched_off: bool) -> (r: Option<(usize, usize)>)
    requires
        addr + bytes <= usize::MAX,
    ensures
        match r {
            Some((start, len)) => {
                &&& bytes >= HUGE_PAGE && !switched_off
                &&& start % SMALL_PAGE == 0
                &&& addr <= start < addr + SMALL_PAGE
                &&& start + len == addr + bytes
            },
            None => bytes < HUGE_PAGE || switched_off,
        },
{
    if bytes < HUGE_PAGE || switched_off {
        return None;
    }
    let rest: usize = addr % SMALL_PAGE;
    let start: usize = if rest == 0 {
        addr
    } else {
        addr + (SMALL_PAGE - rest)
    };
    Some((start, addr + bytes - start))
}

/// What a pool was configured with: `n` threads where it could be built.
pub fn pool_outcome(built: bool, n: usize) -> (r: Option<usize>)
    ensures
        r == if built {
            Some(n)
        } else {
            None
        },
{
    if built {
        Some(n)
    } else {
        None
    }
}

/// What the system tells about the cores of the machine, as far as it does.
#[derive(Clone, Copy, Debug, PartialEq, Eq, Structural)]
pub struct HostCores {
    /// Performance cores.
    pub performance: Option<usize>,
    /// Physical cores.
    pub physical: Option<usize>,
    /// Hardware threads that the process may use.
    pub available: Option<usize>,
}

impl HostCores {
    /// Nothing is known.
    pub fn unknown() -> (h: Self)
        ensures
            h == (HostCores { performance: None, physical: None, available: None }),
    {
        HostCores { performance: None, physical: None, available: None }
    }
}

/// Threads for the pool: the performance cores where the system names them, else the
/// physical cores as far as they are available.
pub open spec fn pool_size(host: HostCores) -> usize {
    match host.performance {
        Some(n) if n > 0 => n,
        _ => core_count(host.physical, host.available),
    }
}

/// What is to become of the global pool.
#[derive(Clone, Copy, Debug, PartialEq, Eq, Structural)]
pub enum PoolPlan {
    /// A pinned pool of that many threads is there.
    Keep(usize),
    /// The number of threads was set from outside: the pool is left alone.
    Leave,
    /// A pool of that many threads is to be built.
    Build(usize),
}

/// What is to become of the global pool: a pinned one stays, a number of threads that
/// was set from outside wins, and else the pool is sized by the cores.
pub open spec fn pool_plan(pinned: Option<usize>, threads_set: bool, host: HostCores) -> PoolPlan {
    match pinned {
        Some(n) => PoolPlan::Keep(n),
        None => if threads_set {
            PoolPlan::Leave
        } else {
            PoolPlan::Build(pool_size(host))
        },
    }
}

/// Decides what is to become of the global pool.
pub fn plan_pool(pinned: Option<usize>, threads_set: bool, host: HostCores) -> (plan: PoolPlan)
    ensures
        plan == pool_plan(pinned, threads_set, host),
{
    if let Some(n) = pinned {
        return PoolPlan::Keep(n);
    }
    if threads_set {
        return PoolPlan::Leave;
    }
    match host.performance {
        Some(n) if n > 0 => PoolPlan::Build(n),
        _ => PoolPlan::Build(perf_core_count(host.physical, host.available)),
    }
}

/// Sizes the global pool, unless a pinned pool was built (`pinned` threads) or the
/// number of threads was set from outside. Returns the number of threads that the pool
/// was built with; `None` where nothing was changed, which is also the case where a pool
/// was there already. Whether one was there, and whether the machine lets one be built,
/// is left unsaid.
pub fn init_perf_thread_pool(
    pinned: Option<usize>,
    threads_set: bool,
    host: HostCores,
) -> (r: Option<usize>)
    ensures
        match pool_plan(pinned, threads_set, host) {
            PoolPlan::Keep(n) => r == Some(n),
            PoolPlan::Leave => r is None,
            PoolPlan::Build(n) => r is None || r == Some(n),
        },
{
    match plan_pool(pinned, threads_set, host) {
        PoolPlan::Keep(n) => Some(n),
        PoolPlan::Leave => None,
        PoolPlan::Build(n) => build_global_pool(n),
    }
}

} // verus!
