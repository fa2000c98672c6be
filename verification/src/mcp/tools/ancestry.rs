//! Ways from child to parent among processes, and the rings they may run in.

use vstd::prelude::*;

use crate::collector::proc::SnapshotView;

verus! {

/// Whether `c` is among those in question and a child of `parent`.
pub open spec fn is_child(
    procs: Map<u32, SnapshotView>,
    among: Set<u32>,
    parent: u32,
    c: u32,
) -> bool {
    among.contains(c) && procs.contains_key(c) && procs[c].ppid == parent
}

/// Whether `k` steps from child to parent lead from `q` to `p`, each from a
/// process among `among`.
pub open spec fn climbs(
    procs: Map<u32, SnapshotView>,
    among: Set<u32>,
    q: u32,
    p: u32,
    k: nat,
) -> bool
    decreases k,
{
    if k == 0 {
        q == p
    } else {
        among.contains(q) && procs.contains_key(q) && climbs(
            procs,
            among,
            procs[q].ppid,
            p,
            (k - 1) as nat,
        )
    }
}

/// Whether `q` is `p` or descends from it by way of processes among `among`.
pub open spec fn descends(procs: Map<u32, SnapshotView>, among: Set<u32>, q: u32, p: u32) -> bool {
    exists|k: nat| climbs(procs, among, q, p, k)
}

/// Whether `p` is its own ancestor by way of processes among `among`.
pub open spec fn in_ring(procs: Map<u32, SnapshotView>, among: Set<u32>, p: u32) -> bool {
    exists|k: nat| k > 0 && climbs(procs, among, p, p, k)
}

/// Whether `p` is the smallest pid of a ring: its own ancestor, and no ancestor
/// of it is smaller.
pub open spec fn heads_ring(procs: Map<u32, SnapshotView>, among: Set<u32>, p: u32) -> bool {
    &&& in_ring(procs, among, p)
    &&& forall|q: u32, k: nat| #[trigger] climbs(procs, among, p, q, k) ==> p <= q
}

// ---------------------------------------------------------------------------
// Ways up
// ---------------------------------------------------------------------------

/// One way up and another that starts where it ends make one.
pub proof fn lemma_climb_on(
    procs: Map<u32, SnapshotView>,
    among: Set<u32>,
    a: u32,
    b: u32,
    c: u32,
    i: nat,
    j: nat,
)
    requires
        climbs(procs, among, a, b, i),
        climbs(procs, among, b, c, j),
    ensures
        climbs(procs, among, a, c, i + j),
    decreases i,
{
    if i > 0 {
        lemma_climb_on(procs, among, procs[a].ppid, b, c, (i - 1) as nat, j);
    }
}

/// The last step of a way up is from a child of where it ends.
pub proof fn lemma_last_step(
    procs: Map<u32, SnapshotView>,
    among: Set<u32>,
    q: u32,
    p: u32,
    k: nat,
) -> (c: u32)
    requires
        climbs(procs, among, q, p, k),
        k > 0,
    ensures
        climbs(procs, among, q, c, (k - 1) as nat),
        is_child(procs, among, p, c),
    decreases k,
{
    let parent = procs[q].ppid;
    if k == 1 {
        assert(climbs(procs, among, parent, p, 0));
        q
    } else {
        lemma_last_step(procs, among, parent, p, (k - 1) as nat)
    }
}

/// Of two ways up from the same process the longer goes by where the shorter
/// ends.
pub proof fn lemma_longer_way(
    procs: Map<u32, SnapshotView>,
    among: Set<u32>,
    q: u32,
    a: u32,
    b: u32,
    i: nat,
    j: nat,
)
    requires
        climbs(procs, among, q, a, i),
        climbs(procs, among, q, b, j),
        i <= j,
    ensures
        climbs(procs, among, a, b, (j - i) as nat),
    decreases i,
{
    if i > 0 {
        lemma_longer_way(procs, among, procs[q].ppid, a, b, (i - 1) as nat, (j - 1) as nat);
    }
}

pub proof fn lemma_child_climbs(procs: Map<u32, SnapshotView>, among: Set<u32>, p: u32, c: u32)
    requires
        is_child(procs, among, p, c),
    ensures
        climbs(procs, among, c, p, 1),
{
    assert(climbs(procs, among, procs[c].ppid, p, 0));
}

/// A way up by fewer processes is one by more.
pub proof fn lemma_among_more(
    procs: Map<u32, SnapshotView>,
    fewer: Set<u32>,
    more: Set<u32>,
    q: u32,
    p: u32,
    k: nat,
)
    requires
        fewer.subset_of(more),
        climbs(procs, fewer, q, p, k),
    ensures
        climbs(procs, more, q, p, k),
    decreases k,
{
    if k > 0 {
        lemma_among_more(procs, fewer, more, procs[q].ppid, p, (k - 1) as nat);
    }
}

// ---------------------------------------------------------------------------
// Rings
// ---------------------------------------------------------------------------

/// The ancestor `k` steps up.
pub open spec fn ancestor(procs: Map<u32, SnapshotView>, q: u32, k: nat) -> u32
    decreases k,
{
    if k == 0 {
        q
    } else {
        ancestor(procs, procs[q].ppid, (k - 1) as nat)
    }
}

/// A way up goes by every ancestor up to its end.
pub proof fn lemma_way_by(
    procs: Map<u32, SnapshotView>,
    among: Set<u32>,
    q: u32,
    p: u32,
    k: nat,
    i: nat,
)
    requires
        climbs(procs, among, q, p, k),
        i < k,
    ensures
        climbs(procs, among, q, ancestor(procs, q, i), i),
        climbs(procs, among, ancestor(procs, q, i), p, (k - i) as nat),
        procs.contains_key(ancestor(procs, q, i)),
    decreases i,
{
    if i > 0 {
        lemma_way_by(procs, among, procs[q].ppid, p, (k - 1) as nat, (i - 1) as nat);
    }
}

/// A way up that is longer than there are processes goes by one of them twice.
proof fn lemma_long_way_repeats(
    procs: Map<u32, SnapshotView>,
    among: Set<u32>,
    q: u32,
    p: u32,
    k: nat,
) -> (r: (nat, nat))
    requires
        procs.dom().finite(),
        climbs(procs, among, q, p, k),
        k > procs.dom().len(),
    ensures
        r.0 < r.1 < k,
        ancestor(procs, q, r.0) == ancestor(procs, q, r.1),
{
    let way = Seq::new(k, |i: int| ancestor(procs, q, i as nat));
    assert forall|i: int| 0 <= i < k implies procs.dom().contains(#[trigger] way[i]) by {
        lemma_way_by(procs, among, q, p, k, i as nat);
    }
    if way.no_duplicates() {
        way.unique_seq_to_set();
        assert(way.to_set().subset_of(procs.dom()));
        vstd::set_lib::lemma_len_subset(way.to_set(), procs.dom());
    }
    let (i, j) = choose|i: int, j: int|
        0 <= i < way.len() && 0 <= j < way.len() && i != j && #[trigger] way[i]
            == #[trigger] way[j];
    if i < j {
        (i as nat, j as nat)
    } else {
        (j as nat, i as nat)
    }
}

/// A ring is no longer than there are processes.
pub proof fn lemma_ring_len(procs: Map<u32, SnapshotView>, among: Set<u32>, p: u32, k: nat) -> (r:
    nat)
    requires
        procs.dom().finite(),
        climbs(procs, among, p, p, k),
        k > 0,
    ensures
        0 < r <= procs.dom().len(),
        climbs(procs, among, p, p, r),
    decreases k,
{
    if k <= procs.dom().len() {
        k
    } else {
        let (i, j) = lemma_long_way_repeats(procs, among, p, p, k);
        let a = ancestor(procs, p, i);
        lemma_way_by(procs, among, p, p, k, i);
        lemma_way_by(procs, among, p, p, k, j);
        let rest = (k - j) as nat;
        lemma_climb_on(procs, among, p, a, p, i, rest);
        lemma_ring_len(procs, among, p, i + rest)
    }
}

/// Where one round of a ring goes by no smaller pid, no way up does.
pub proof fn lemma_round_decides(
    procs: Map<u32, SnapshotView>,
    among: Set<u32>,
    p: u32,
    round: nat,
    q: u32,
    k: nat,
)
    requires
        round > 0,
        climbs(procs, among, p, p, round),
        forall|a: u32, i: nat| i < round && #[trigger] climbs(procs, among, p, a, i) ==> p <= a,
        climbs(procs, among, p, q, k),
    ensures
        p <= q,
    decreases k,
{
    if k >= round {
        lemma_longer_way(procs, among, p, p, q, round, k);
        lemma_round_decides(procs, among, p, round, q, (k - round) as nat);
    }
}

/// The smallest of the ancestors.
proof fn lemma_least(
    procs: Map<u32, SnapshotView>,
    among: Set<u32>,
    p: u32,
    q: u32,
    k: nat,
) -> (r: (u32, nat))
    requires
        climbs(procs, among, p, q, k),
    ensures
        climbs(procs, among, p, r.0, r.1),
        forall|a: u32, i: nat| #[trigger] climbs(procs, among, p, a, i) ==> r.0 <= a,
    decreases q,
{
    if exists|a: u32, i: nat| #[trigger] climbs(procs, among, p, a, i) && a < q {
        let (a, i) = choose|a: u32, i: nat| #[trigger] climbs(procs, among, p, a, i) && a < q;
        lemma_least(procs, among, p, a, i)
    } else {
        (q, k)
    }
}

/// Enough rounds of a ring are as long as any way.
proof fn lemma_rounds(
    procs: Map<u32, SnapshotView>,
    among: Set<u32>,
    p: u32,
    round: nat,
    l: nat,
) -> (r: nat)
    requires
        round > 0,
        climbs(procs, among, p, p, round),
    ensures
        r > 0,
        r >= l,
        climbs(procs, among, p, p, r),
    decreases l,
{
    if l <= round {
        round
    } else {
        let r = lemma_rounds(procs, among, p, round, (l - round) as nat);
        lemma_climb_on(procs, among, p, p, p, round, r);
        round + r
    }
}

/// A way up that is longer than there are processes has led to the smallest pid
/// of a ring.
pub proof fn lemma_long_way_meets_ring(
    procs: Map<u32, SnapshotView>,
    among: Set<u32>,
    q: u32,
    p: u32,
    k: nat,
) -> (h: u32)
    requires
        procs.dom().finite(),
        climbs(procs, among, q, p, k),
        k > procs.dom().len(),
    ensures
        heads_ring(procs, among, h),
        descends(procs, among, q, h),
{
    let (i, j) = lemma_long_way_repeats(procs, among, q, p, k);
    let a = ancestor(procs, q, i);
    lemma_way_by(procs, among, q, p, k, i);
    lemma_way_by(procs, among, q, p, k, j);
    lemma_longer_way(procs, among, q, a, a, i, j);
    let round = (j - i) as nat;
    assert(climbs(procs, among, a, a, 0));
    let (h, l) = lemma_least(procs, among, a, a, 0);
    let e = lemma_rounds(procs, among, a, round, l);
    lemma_longer_way(procs, among, a, h, a, l, e);
    lemma_climb_on(procs, among, h, a, h, (e - l) as nat, l);
    assert(climbs(procs, among, h, h, e));
    assert forall|b: u32, m: nat| #[trigger] climbs(procs, among, h, b, m) implies h <= b by {
        lemma_climb_on(procs, among, a, h, b, l, m);
    }
    lemma_climb_on(procs, among, q, a, h, i, l);
    h
}

} // verus!
