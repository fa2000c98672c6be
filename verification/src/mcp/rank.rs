//! The order in which processes are listed: the largest first.

use vstd::prelude::*;

verus! {

/// Whether a process of resident set size `a` may stand before one of `b`: the
/// larger first, those without one last.
pub open spec fn ranks_before(a: Option<u64>, b: Option<u64>) -> bool {
    match (a, b) {
        (Some(x), Some(y)) => x >= y,
        (Some(_), None) => true,
        (None, Some(_)) => false,
        (None, None) => true,
    }
}

fn may_precede(a: Option<u64>, b: Option<u64>) -> (r: bool)
    ensures
        r == ranks_before(a, b),
{
    match (a, b) {
        (Some(x), Some(y)) => x >= y,
        (Some(_), None) => true,
        (None, Some(_)) => false,
        (None, None) => true,
    }
}

/// What has a resident set size to be listed by.
pub trait Ranked: Sized {
    spec fn rank(&self) -> Option<u64>;

    fn rank_bytes(&self) -> (r: Option<u64>)
        ensures
            r == self.rank(),
    ;
}

/// Whether each may stand before all that follow it.
pub open spec fn in_rank_order<T>(s: Seq<T>, rank: spec_fn(T) -> Option<u64>) -> bool {
    forall|i: int, j: int|
        0 <= i < j < s.len() ==> ranks_before(rank(#[trigger] s[i]), rank(#[trigger] s[j]))
}

pub open spec fn has_rank<T>(rank: spec_fn(T) -> Option<u64>, k: Option<u64>) -> spec_fn(T) -> bool {
    |x: T| rank(x) == k
}

/// Whether `output` holds what `input` holds, in rank order, with those of equal
/// rank in the order of `input`.
pub open spec fn is_ranking<T>(
    input: Seq<T>,
    output: Seq<T>,
    rank: spec_fn(T) -> Option<u64>,
) -> bool {
    &&& in_rank_order(output, rank)
    &&& forall|k: Option<u64>| #[trigger]
        output.filter(has_rank(rank, k)) == input.filter(has_rank(rank, k))
}

/// Puts `x` behind all that may stand before it.
pub open spec fn ranked_insert<T>(s: Seq<T>, x: T, rank: spec_fn(T) -> Option<u64>) -> Seq<T>
    decreases s.len(),
{
    if s.len() == 0 || ranks_before(rank(s.last()), rank(x)) {
        s.push(x)
    } else {
        ranked_insert(s.drop_last(), x, rank).push(s.last())
    }
}

/// The elements in rank order, those of equal rank in the order given.
pub open spec fn ranking<T>(s: Seq<T>, rank: spec_fn(T) -> Option<u64>) -> Seq<T>
    decreases s.len(),
{
    if s.len() == 0 {
        s
    } else {
        ranked_insert(ranking(s.drop_last(), rank), s.last(), rank)
    }
}

// ---------------------------------------------------------------------------
// What a ranking is, and that there is one only
// ---------------------------------------------------------------------------

proof fn lemma_ranks_before_transitive(a: Option<u64>, b: Option<u64>, c: Option<u64>)
    requires
        ranks_before(a, b),
        ranks_before(b, c),
    ensures
        ranks_before(a, c),
{
}

/// Nothing is left where nothing passes.
proof fn lemma_filter_none<T>(s: Seq<T>, p: spec_fn(T) -> bool)
    requires
        forall|i: int| 0 <= i < s.len() ==> !p(#[trigger] s[i]),
    ensures
        s.filter(p) == Seq::<T>::empty(),
    decreases s.len(),
{
    reveal(Seq::filter);
    if s.len() > 0 {
        lemma_filter_none(s.drop_last(), p);
    }
}

/// An element that passes a filter is found in what is filtered, and the other
/// way round.
pub proof fn lemma_filter_member<T>(s: Seq<T>, p: spec_fn(T) -> bool, x: T)
    ensures
        s.filter(p).contains(x) <==> s.contains(x) && p(x),
    decreases s.len(),
{
    if s.len() == 0 {
        lemma_filter_none(s, p);
    } else {
        let init = s.drop_last();
        let last = s.last();
        assert(s =~= init.push(last));
        init.lemma_filter_push(last, p);
        lemma_filter_member(init, p, x);
        vstd::seq_lib::lemma_seq_contains_after_push(init, last, x);
        vstd::seq_lib::lemma_seq_contains_after_push(init.filter(p), last, x);
    }
}

proof fn lemma_ranked_insert<T>(s: Seq<T>, x: T, rank: spec_fn(T) -> Option<u64>)
    requires
        in_rank_order(s, rank),
    ensures
        is_ranking(s.push(x), ranked_insert(s, x, rank), rank),
        ranked_insert(s, x, rank).to_multiset() == s.push(x).to_multiset(),
        ranked_insert(s, x, rank).len() == s.len() + 1,
    decreases s.len(),
{
    let r = ranked_insert(s, x, rank);
    if s.len() == 0 || ranks_before(rank(s.last()), rank(x)) {
        assert forall|i: int, j: int| 0 <= i < j < r.len() implies ranks_before(
            rank(#[trigger] r[i]),
            rank(#[trigger] r[j]),
        ) by {
            if j == s.len() && i < s.len() - 1 {
                lemma_ranks_before_transitive(rank(s[i]), rank(s.last()), rank(x));
            }
        }
    } else {
        let init = s.drop_last();
        let y = s.last();
        let inner = ranked_insert(init, x, rank);
        lemma_ranked_insert(init, x, rank);
        broadcast use vstd::seq_lib::group_to_multiset_ensures;

        assert(s =~= init.push(y));
        assert(r.to_multiset() =~= s.push(x).to_multiset());
        assert forall|i: int, j: int| 0 <= i < j < r.len() implies ranks_before(
            rank(#[trigger] r[i]),
            rank(#[trigger] r[j]),
        ) by {
            if j == r.len() - 1 {
                assert(inner.to_multiset().contains(inner[i]));
                assert(init.push(x).contains(inner[i]));
                let k = choose|k: int|
                    0 <= k < init.push(x).len() && init.push(x)[k] == inner[i];
                if k < init.len() {
                    assert(init[k] == s[k]);
                }
            }
        }
        assert forall|k: Option<u64>| #[trigger] r.filter(has_rank(rank, k)) == s.push(x).filter(
            has_rank(rank, k),
        ) by {
            let p = has_rank(rank, k);
            inner.lemma_filter_push(y, p);
            init.lemma_filter_push(x, p);
            init.lemma_filter_push(y, p);
            s.lemma_filter_push(x, p);
            assert(inner.filter(p) == init.push(x).filter(p));
        }
    }
}

/// Listing by rank gives a ranking.
pub proof fn law_ranking_is_a_ranking<T>(s: Seq<T>, rank: spec_fn(T) -> Option<u64>)
    ensures
        is_ranking(s, ranking(s, rank), rank),
        ranking(s, rank).to_multiset() == s.to_multiset(),
        ranking(s, rank).len() == s.len(),
    decreases s.len(),
{
    if s.len() > 0 {
        let init = s.drop_last();
        let x = s.last();
        law_ranking_is_a_ranking(init, rank);
        let inner = ranking(init, rank);
        lemma_ranked_insert(inner, x, rank);
        assert(s =~= init.push(x));
        broadcast use vstd::seq_lib::group_to_multiset_ensures;

        assert(inner.push(x).to_multiset() =~= s.to_multiset());
        assert forall|k: Option<u64>| #[trigger] ranking(s, rank).filter(has_rank(rank, k))
            == s.filter(has_rank(rank, k)) by {
            let p = has_rank(rank, k);
            inner.lemma_filter_push(x, p);
            init.lemma_filter_push(x, p);
            assert(inner.filter(p) == init.filter(p));
        }
    }
}

/// A ranking holds what is ranked, and nothing else.
pub proof fn lemma_ranking_member<T>(s: Seq<T>, rank: spec_fn(T) -> Option<u64>, x: T)
    ensures
        ranking(s, rank).contains(x) <==> s.contains(x),
{
    broadcast use vstd::seq_lib::group_to_multiset_ensures;

    law_ranking_is_a_ranking(s, rank);
    assert(ranking(s, rank).to_multiset().count(x) == s.to_multiset().count(x));
}

/// There is one ranking only.
pub proof fn law_ranking_is_unique<T>(
    s: Seq<T>,
    a: Seq<T>,
    b: Seq<T>,
    rank: spec_fn(T) -> Option<u64>,
)
    requires
        is_ranking(s, a, rank),
        is_ranking(s, b, rank),
    ensures
        a == b,
{
    assert forall|k: Option<u64>| #[trigger] a.filter(has_rank(rank, k)) == b.filter(
        has_rank(rank, k),
    ) by {
        assert(a.filter(has_rank(rank, k)) == s.filter(has_rank(rank, k)));
        assert(b.filter(has_rank(rank, k)) == s.filter(has_rank(rank, k)));
    }
    lemma_same_ranks(a, b, rank);
}

proof fn lemma_last_rank<T>(a: Seq<T>, b: Seq<T>, rank: spec_fn(T) -> Option<u64>)
    requires
        in_rank_order(b, rank),
        forall|k: Option<u64>| #[trigger]
            a.filter(has_rank(rank, k)) == b.filter(has_rank(rank, k)),
        a.len() > 0,
    ensures
        b.len() > 0,
        ranks_before(rank(a.last()), rank(b.last())),
{
    let k = rank(a.last());
    let p = has_rank(rank, k);
    assert(p(a.last()));
    lemma_filter_member(a, p, a.last());
    assert(a[a.len() - 1] == a.last());
    assert(a.filter(p).contains(a.last()));
    assert(b.filter(p).contains(a.last()));
    lemma_filter_member(b, p, a.last());
    let i = choose|i: int| 0 <= i < b.len() && b[i] == a.last();
    if i < b.len() - 1 {
        assert(ranks_before(rank(b[i]), rank(b[b.len() - 1])));
    }
}

proof fn lemma_same_ranks<T>(a: Seq<T>, b: Seq<T>, rank: spec_fn(T) -> Option<u64>)
    requires
        in_rank_order(a, rank),
        in_rank_order(b, rank),
        forall|k: Option<u64>| #[trigger]
            a.filter(has_rank(rank, k)) == b.filter(has_rank(rank, k)),
    ensures
        a == b,
    decreases a.len(),
{
    if a.len() == 0 {
        if b.len() > 0 {
            assert forall|k: Option<u64>| #[trigger] b.filter(has_rank(rank, k)) == a.filter(
                has_rank(rank, k),
            ) by {
                assert(a.filter(has_rank(rank, k)) == b.filter(has_rank(rank, k)));
            }
            lemma_last_rank(b, a, rank);
        }
        assert(a =~= b);
    } else {
        lemma_last_rank(a, b, rank);
        assert forall|k: Option<u64>| #[trigger] b.filter(has_rank(rank, k)) == a.filter(
            has_rank(rank, k),
        ) by {
            assert(a.filter(has_rank(rank, k)) == b.filter(has_rank(rank, k)));
        }
        lemma_last_rank(b, a, rank);
        let k0 = rank(a.last());
        let p0 = has_rank(rank, k0);
        let ai = a.drop_last();
        let bi = b.drop_last();
        assert(a =~= ai.push(a.last()));
        assert(b =~= bi.push(b.last()));
        ai.lemma_filter_push(a.last(), p0);
        bi.lemma_filter_push(b.last(), p0);
        assert(a.filter(p0) == b.filter(p0));
        assert(a.filter(p0).last() == a.last());
        assert(b.filter(p0).last() == b.last());
        assert forall|k: Option<u64>| #[trigger] ai.filter(has_rank(rank, k)) == bi.filter(
            has_rank(rank, k),
        ) by {
            let p = has_rank(rank, k);
            ai.lemma_filter_push(a.last(), p);
            bi.lemma_filter_push(b.last(), p);
            assert(a.filter(p) == b.filter(p));
            if p(a.last()) {
                assert(ai.filter(p) =~= a.filter(p).drop_last());
                assert(bi.filter(p) =~= b.filter(p).drop_last());
            }
        }
        lemma_same_ranks(ai, bi, rank);
    }
}

proof fn lemma_ranked_insert_map<T, U>(
    s: Seq<T>,
    x: T,
    f: spec_fn(T) -> U,
    rank: spec_fn(T) -> Option<u64>,
    rank_image: spec_fn(U) -> Option<u64>,
)
    requires
        forall|i: int| 0 <= i < s.len() ==> rank_image(f(#[trigger] s[i])) == rank(s[i]),
        rank_image(f(x)) == rank(x),
    ensures
        ranked_insert(s, x, rank).map_values(f) == ranked_insert(s.map_values(f), f(x), rank_image),
    decreases s.len(),
{
    assert(s.push(x).map_values(f) =~= s.map_values(f).push(f(x)));
    if s.len() > 0 {
        let init = s.drop_last();
        assert forall|i: int| 0 <= i < init.len() implies rank_image(f(#[trigger] init[i])) == rank(
            init[i],
        ) by {
            assert(init[i] == s[i]);
        }
        lemma_ranked_insert_map(init, x, f, rank, rank_image);
        assert(s.map_values(f).drop_last() =~= init.map_values(f));
        assert(s.map_values(f).last() == f(s.last()));
        assert(s.last() == s[s.len() - 1]);
        assert(ranked_insert(init, x, rank).push(s.last()).map_values(f) =~= ranked_insert(
            init,
            x,
            rank,
        ).map_values(f).push(f(s.last())));
    }
}

/// A map that keeps the rank of all that is ranked keeps the ranking.
pub proof fn lemma_ranking_map<T, U>(
    s: Seq<T>,
    f: spec_fn(T) -> U,
    rank: spec_fn(T) -> Option<u64>,
    rank_image: spec_fn(U) -> Option<u64>,
)
    requires
        forall|i: int| 0 <= i < s.len() ==> rank_image(f(#[trigger] s[i])) == rank(s[i]),
    ensures
        ranking(s, rank).map_values(f) == ranking(s.map_values(f), rank_image),
    decreases s.len(),
{
    if s.len() == 0 {
        assert(s.map_values(f) =~= Seq::empty());
    } else {
        let init = s.drop_last();
        let inner = ranking(init, rank);
        assert forall|i: int| 0 <= i < init.len() implies rank_image(f(#[trigger] init[i])) == rank(
            init[i],
        ) by {
            assert(init[i] == s[i]);
        }
        lemma_ranking_map(init, f, rank, rank_image);
        assert forall|i: int| 0 <= i < inner.len() implies rank_image(f(#[trigger] inner[i]))
            == rank(inner[i]) by {
            lemma_ranking_member(init, rank, inner[i]);
            assert(inner.contains(inner[i]));
            let j = choose|j: int| 0 <= j < init.len() && init[j] == inner[i];
            assert(init[j] == inner[i]);
        }
        assert(s.last() == s[s.len() - 1]);
        lemma_ranked_insert_map(inner, s.last(), f, rank, rank_image);
        assert(s.map_values(f).drop_last() =~= init.map_values(f));
    }
}

// ---------------------------------------------------------------------------
// Sorting
// ---------------------------------------------------------------------------

pub open spec fn rank_of<T: Ranked>() -> spec_fn(T) -> Option<u64> {
    |x: T| x.rank()
}

fn reversed<T>(items: Vec<T>) -> (r: Vec<T>)
    ensures
        r@ == items@.reverse(),
{
    let mut items = items;
    let ghost all = items@;
    let mut r: Vec<T> = Vec::new();
    while items.len() > 0
        invariant
            items@.len() <= all.len(),
            items@ == all.take(items@.len() as int),
            r@ == all.skip(items@.len() as int).reverse(),
        decreases items.len(),
    {
        let ghost n = items@.len() as int;
        if let Some(x) = items.pop() {
            r.push(x);
            assert(all.take(n).drop_last() =~= all.take(n - 1));
            assert(all.skip(n - 1).reverse() =~= all.skip(n).reverse().push(x));
        }
    }
    assert(all.skip(0) =~= all);
    r
}

/// Whether every element of `s` may stand before every element of `t`.
spec fn all_before<T>(s: Seq<T>, t: Seq<T>, rank: spec_fn(T) -> Option<u64>) -> bool {
    forall|i: int, j: int|
        0 <= i < s.len() && 0 <= j < t.len() ==> ranks_before(
            rank(#[trigger] s[i]),
            rank(#[trigger] t[j]),
        )
}

/// Merges two rankings, those of `a` before those of `b` where the rank is the
/// same.
fn merge<T: Ranked>(a: Vec<T>, b: Vec<T>) -> (r: Vec<T>)
    requires
        in_rank_order(a@, rank_of::<T>()),
        in_rank_order(b@, rank_of::<T>()),
    ensures
        is_ranking(a@ + b@, r@, rank_of::<T>()),
{
    let ghost rank = rank_of::<T>();
    let ghost (a0, b0) = (a@, b@);
    let mut a = a;
    let mut b = b;
    // Filled from the far end.
    let mut out: Vec<T> = Vec::new();
    let ghost mut suffix: Seq<T> = Seq::empty();
    assert(out@.reverse() =~= suffix);
    assert forall|k: Option<u64>| #[trigger] (a0 + b0).filter(has_rank(rank, k)) == a@.filter(
        has_rank(rank, k),
    ) + b@.filter(has_rank(rank, k)) + suffix.filter(has_rank(rank, k)) by {
        Seq::filter_distributes_over_add(a0, b0, has_rank(rank, k));
        lemma_filter_none(suffix, has_rank(rank, k));
        assert(a@.filter(has_rank(rank, k)) + b@.filter(has_rank(rank, k)) + Seq::<T>::empty()
            =~= a@.filter(has_rank(rank, k)) + b@.filter(has_rank(rank, k)));
    }
    while a.len() > 0 || b.len() > 0
        invariant
            rank == rank_of::<T>(),
            in_rank_order(a@, rank),
            in_rank_order(b@, rank),
            in_rank_order(suffix, rank),
            all_before(a@, suffix, rank),
            all_before(b@, suffix, rank),
            out@.reverse() == suffix,
            forall|k: Option<u64>| #[trigger]
                (a0 + b0).filter(has_rank(rank, k)) == a@.filter(has_rank(rank, k)) + b@.filter(
                    has_rank(rank, k),
                ) + suffix.filter(has_rank(rank, k)),
        decreases a.len() + b.len(),
    {
        let ghost (a1, b1, suffix1) = (a@, b@, suffix);
        let from_b = if a.len() == 0 {
            true
        } else if b.len() == 0 {
            false
        } else {
            may_precede(a[a.len() - 1].rank_bytes(), b[b.len() - 1].rank_bytes())
        };
        let taken = if from_b {
            b.pop()
        } else {
            a.pop()
        };
        if let Some(x) = taken {
            proof {
                suffix = seq![x] + suffix;
            }
            out.push(x);
            assert(out@.reverse() =~= suffix);
            proof {
                if from_b {
                    lemma_take_last(b1, a1, suffix1, rank);
                    assert forall|k: Option<u64>| #[trigger] (a0 + b0).filter(has_rank(rank, k))
                        == a@.filter(has_rank(rank, k)) + b@.filter(has_rank(rank, k))
                        + suffix.filter(has_rank(rank, k)) by {
                        let p = has_rank(rank, k);
                        assert(b1 =~= b@.push(x));
                        b@.lemma_filter_push(x, p);
                        lemma_filter_front(x, suffix1, p);
                        assert(a1.filter(p) + b1.filter(p) + suffix1.filter(p) =~= a@.filter(p)
                            + b@.filter(p) + suffix.filter(p));
                    }
                } else {
                    lemma_take_last(a1, b1, suffix1, rank);
                    assert forall|k: Option<u64>| #[trigger] (a0 + b0).filter(has_rank(rank, k))
                        == a@.filter(has_rank(rank, k)) + b@.filter(has_rank(rank, k))
                        + suffix.filter(has_rank(rank, k)) by {
                        let p = has_rank(rank, k);
                        assert(a1 =~= a@.push(x));
                        a@.lemma_filter_push(x, p);
                        lemma_filter_front(x, suffix1, p);
                        if p(x) {
                            assert forall|i: int| 0 <= i < b1.len() implies !p(#[trigger] b1[i]) by {
                                if i < b1.len() - 1 {
                                    assert(ranks_before(rank(b1[i]), rank(b1[b1.len() - 1])));
                                }
                            }
                            lemma_filter_none(b1, p);
                        }
                        assert(a1.filter(p) + b1.filter(p) + suffix1.filter(p) =~= a@.filter(p)
                            + b@.filter(p) + suffix.filter(p));
                    }
                }
            }
        }
    }
    assert forall|k: Option<u64>| #[trigger] suffix.filter(has_rank(rank, k)) == (a0 + b0).filter(
        has_rank(rank, k),
    ) by {
        let p = has_rank(rank, k);
        assert((a0 + b0).filter(p) == a@.filter(p) + b@.filter(p) + suffix.filter(p));
        lemma_filter_none(a@, p);
        lemma_filter_none(b@, p);
        assert(a@.filter(p) + b@.filter(p) + suffix.filter(p) =~= suffix.filter(p));
    }
    reversed(out)
}

proof fn lemma_filter_front<T>(x: T, s: Seq<T>, p: spec_fn(T) -> bool)
    ensures
        (seq![x] + s).filter(p) == if p(x) {
            seq![x] + s.filter(p)
        } else {
            s.filter(p)
        },
{
    Seq::filter_distributes_over_add(seq![x], s, p);
    assert(seq![x] =~= Seq::<T>::empty().push(x));
    Seq::<T>::empty().lemma_filter_push(x, p);
    lemma_filter_none(Seq::<T>::empty(), p);
    assert(Seq::<T>::empty() + s.filter(p) =~= s.filter(p));
}

/// Taking the last of `s`, which all of `s` and `t` may stand before, keeps the
/// order.
proof fn lemma_take_last<T>(s: Seq<T>, t: Seq<T>, suffix: Seq<T>, rank: spec_fn(T) -> Option<u64>)
    requires
        s.len() > 0,
        in_rank_order(s, rank),
        in_rank_order(t, rank),
        in_rank_order(suffix, rank),
        all_before(s, suffix, rank),
        all_before(t, suffix, rank),
        t.len() > 0 ==> ranks_before(rank(t.last()), rank(s.last())),
    ensures
        in_rank_order(s.drop_last(), rank),
        in_rank_order(seq![s.last()] + suffix, rank),
        all_before(s.drop_last(), seq![s.last()] + suffix, rank),
        all_before(t, seq![s.last()] + suffix, rank),
{
    let x = s.last();
    let longer = seq![x] + suffix;
    assert(s[s.len() - 1] == x);
    assert forall|i: int, j: int| 0 <= i < t.len() && 0 <= j < longer.len() implies ranks_before(
        rank(#[trigger] t[i]),
        rank(#[trigger] longer[j]),
    ) by {
        if j == 0 {
            if i < t.len() - 1 {
                assert(ranks_before(rank(t[i]), rank(t[t.len() - 1])));
                lemma_ranks_before_transitive(rank(t[i]), rank(t.last()), rank(x));
            }
        } else {
            assert(longer[j] == suffix[j - 1]);
        }
    }
    assert forall|i: int, j: int|
        0 <= i < s.drop_last().len() && 0 <= j < longer.len() implies ranks_before(
        rank(#[trigger] s.drop_last()[i]),
        rank(#[trigger] longer[j]),
    ) by {
        assert(s.drop_last()[i] == s[i]);
        if j == 0 {
            assert(ranks_before(rank(s[i]), rank(s[s.len() - 1])));
        } else {
            assert(longer[j] == suffix[j - 1]);
        }
    }
    assert forall|i: int, j: int| 0 <= i < j < longer.len() implies ranks_before(
        rank(#[trigger] longer[i]),
        rank(#[trigger] longer[j]),
    ) by {
        assert(longer[j] == suffix[j - 1]);
        if i > 0 {
            assert(longer[i] == suffix[i - 1]);
        }
    }
}

/// Lists by resident set size, the largest first, those without one last, those
/// of equal size in the order given.
pub fn sort_by_rss_desc<T: Ranked>(items: Vec<T>) -> (r: Vec<T>)
    ensures
        r@ == ranking(items@, rank_of::<T>()),
    decreases items.len(),
{
    let ghost all = items@;
    let ghost rank = rank_of::<T>();
    let mut items = items;
    let sorted = if items.len() <= 1 {
        assert(is_ranking(all, items@, rank));
        items
    } else {
        let mid: usize = items.len() / 2;
        let back = items.split_off(mid);
        let ghost (a, b) = (items@, back@);
        assert(all =~= a + b);
        let front = sort_by_rss_desc(items);
        let back = sort_by_rss_desc(back);
        proof {
            law_ranking_is_a_ranking(a, rank);
            law_ranking_is_a_ranking(b, rank);
        }
        let ghost (a2, b2) = (front@, back@);
        let merged = merge(front, back);
        assert forall|k: Option<u64>| #[trigger] merged@.filter(has_rank(rank, k)) == all.filter(
            has_rank(rank, k),
        ) by {
            let p = has_rank(rank, k);
            Seq::filter_distributes_over_add(a, b, p);
            Seq::filter_distributes_over_add(a2, b2, p);
            assert(merged@.filter(p) == (a2 + b2).filter(p));
            assert(a2.filter(p) == a.filter(p));
            assert(b2.filter(p) == b.filter(p));
        }
        merged
    };
    proof {
        law_ranking_is_a_ranking(all, rank);
        law_ranking_is_unique(all, sorted@, ranking(all, rank), rank);
    }
    sorted
}

/// Whether the sizes go down, and those that are unknown come last.
pub open spec fn goes_down(sizes: Seq<Option<u64>>) -> bool {
    forall|i: int, j: int|
        0 <= i < j < sizes.len() ==> ((#[trigger] sizes[j]) matches Some(y) ==> (
        #[trigger] sizes[i]) matches Some(x) && x >= y)
}

pub open spec fn of_size<T>(size: spec_fn(T) -> Option<u64>, k: Option<u64>) -> spec_fn(T) -> bool {
    |x: T| size(x) == k
}

/// Whether `listed` is what `given` is, with the sizes going down, and what has
/// the same size in the order given.
pub open spec fn is_listing_of<T>(
    listed: Seq<T>,
    given: Seq<T>,
    size: spec_fn(T) -> Option<u64>,
) -> bool {
    &&& listed.len() == given.len()
    &&& listed.to_multiset() == given.to_multiset()
    &&& goes_down(listed.map_values(size))
    &&& forall|k: Option<u64>| #[trigger]
        listed.filter(of_size(size, k)) == given.filter(of_size(size, k))
}

/// A ranking lists all that is ranked by size, the largest first, the unknown
/// sizes last, and equal ones in the order given.
pub proof fn law_ranking_goes_down<T>(s: Seq<T>, rank: spec_fn(T) -> Option<u64>)
    ensures
        is_listing_of(ranking(s, rank), s, rank),
{
    let r = ranking(s, rank);
    law_ranking_is_a_ranking(s, rank);
    let sizes = r.map_values(rank);
    assert forall|i: int, j: int| 0 <= i < j < sizes.len() implies ((#[trigger] sizes[j]) matches Some(
        y,
    ) ==> (#[trigger] sizes[i]) matches Some(x) && x >= y) by {
        assert(ranks_before(rank(r[i]), rank(r[j])));
    }
    assert forall|k: Option<u64>| #[trigger] r.filter(of_size(rank, k)) == s.filter(
        of_size(rank, k),
    ) by {
        assert(has_rank(rank, k) =~= of_size(rank, k));
        assert(r.filter(has_rank(rank, k)) == s.filter(has_rank(rank, k)));
    }
}

} // verus!
