//! The greedy nearest-neighbour order as mathematics: which candidate is
//! nearest, the tour of one group, the chain over several groups, and the laws
//! that hold of them.
use vstd::prelude::*;

verus! {

/// Position, among the first `k` candidates, of the first one with the smallest
/// key from node `from`: a later candidate replaces the running best only when
/// its key is strictly smaller.
pub open spec fn nearest_upto(d: Seq<Seq<u64>>, from: int, c: Seq<usize>, k: int) -> int
    decreases k,
{
    if k <= 1 {
        0
    } else {
        let p = nearest_upto(d, from, c, k - 1);
        if d[from][c[k - 1] as int] < d[from][c[p] as int] {
            k - 1
        } else {
            p
        }
    }
}

/// Position of the candidate nearest to `from`; on equal keys the lowest position.
pub open spec fn nearest_pos(d: Seq<Seq<u64>>, from: int, c: Seq<usize>) -> int {
    nearest_upto(d, from, c, c.len() as int)
}

/// The greedy position found among the first `k` candidates lies among them, has
/// a key no larger than any of them, and a strictly smaller key than each one
/// before it.
pub proof fn lemma_nearest_upto(d: Seq<Seq<u64>>, from: int, c: Seq<usize>, k: int)
    requires
        1 <= k <= c.len(),
    ensures
        0 <= nearest_upto(d, from, c, k) < k,
        forall|j: int|
            0 <= j < k ==> d[from][c[nearest_upto(d, from, c, k)] as int] <= d[from][#[trigger] c[j] as int],
        forall|j: int|
            0 <= j < nearest_upto(d, from, c, k) ==> d[from][c[nearest_upto(d, from, c, k)] as int]
                < d[from][#[trigger] c[j] as int],
    decreases k,
{
    if k > 1 {
        lemma_nearest_upto(d, from, c, k - 1);
    }
}

/// The greedy tour: from `from`, visit the nearest of the points left, move
/// there, and repeat until none is left.
pub open spec fn tour(d: Seq<Seq<u64>>, from: int, rest: Seq<usize>) -> Seq<usize>
    decreases rest.len(),
{
    if rest.len() == 0 {
        Seq::empty()
    } else {
        let i = nearest_pos(d, from, rest);
        proof {
            lemma_nearest_upto(d, from, rest, rest.len() as int);
        }
        seq![rest[i]] + tour(d, rest[i] as int, rest.remove(i))
    }
}

/// The tour visits each point exactly once: it is a permutation of the points,
/// with the same multiset of nodes and the same length.
pub proof fn lemma_tour_permutation(d: Seq<Seq<u64>>, from: int, rest: Seq<usize>)
    ensures
        tour(d, from, rest).to_multiset() == rest.to_multiset(),
        tour(d, from, rest).len() == rest.len(),
    decreases rest.len(),
{
    broadcast use vstd::seq_lib::group_to_multiset_ensures;
    broadcast use vstd::multiset::group_multiset_axioms;

    if rest.len() > 0 {
        lemma_nearest_upto(d, from, rest, rest.len() as int);
        let i = nearest_pos(d, from, rest);
        let x = rest[i];
        let tail = tour(d, x as int, rest.remove(i));
        lemma_tour_permutation(d, x as int, rest.remove(i));
        vstd::seq_lib::lemma_seq_union_to_multiset_commutative(seq![x], tail);
        assert(tail + seq![x] =~= tail.push(x));
        assert((seq![x] + tail).to_multiset() =~= tail.to_multiset().insert(x));
        assert(rest.remove(i).to_multiset() == rest.to_multiset().remove(x));
        assert(rest.to_multiset().count(x) > 0);
        assert(rest.to_multiset().remove(x).insert(x) =~= rest.to_multiset());
    }
}

/// With no points the tour is empty.
pub proof fn lemma_tour_empty(d: Seq<Seq<u64>>, from: int)
    ensures
        tour(d, from, Seq::empty()) == Seq::<usize>::empty(),
{
}

/// With one point the tour is that point.
pub proof fn lemma_tour_single(d: Seq<Seq<u64>>, from: int, p: usize)
    ensures
        tour(d, from, seq![p]) == seq![p],
{
    assert(seq![p].remove(0) =~= Seq::<usize>::empty());
    assert(tour(d, p as int, Seq::empty()) == Seq::<usize>::empty());
    assert(seq![p] + Seq::<usize>::empty() =~= seq![p]);
}

/// Of two points at the same key from `from`, the later one is never the one
/// picked next: the earlier one, or one strictly nearer, is.
pub proof fn lemma_tie_goes_to_earlier(d: Seq<Seq<u64>>, from: int, c: Seq<usize>, i: int, j: int)
    requires
        0 <= i < j < c.len(),
        d[from][c[i] as int] == d[from][c[j] as int],
    ensures
        nearest_pos(d, from, c) != j,
        nearest_pos(d, from, c) <= i || d[from][c[nearest_pos(d, from, c)] as int]
            < d[from][c[i] as int],
{
    lemma_nearest_upto(d, from, c, c.len() as int);
}

/// The path over several groups in turn: each group is toured from where the
/// previous non-empty group ended, the first from `reference`, and the
/// segments are joined in group order. An empty group adds nothing and leaves
/// the reference where it was.
pub open spec fn chain(d: Seq<Seq<u64>>, reference: int, groups: Seq<Seq<usize>>) -> Seq<usize>
    decreases groups.len(),
{
    if groups.len() == 0 {
        Seq::empty()
    } else {
        let seg = tour(d, reference, groups[0]);
        let next = if seg.len() == 0 {
            reference
        } else {
            seg.last() as int
        };
        seg + chain(d, next, groups.drop_first())
    }
}

/// All points of all groups, in group order.
pub open spec fn all_points(groups: Seq<Seq<usize>>) -> Seq<usize>
    decreases groups.len(),
{
    if groups.len() == 0 {
        Seq::empty()
    } else {
        groups[0] + all_points(groups.drop_first())
    }
}

/// The groups' contents, as sequences of nodes.
pub open spec fn group_views(groups: Seq<Vec<usize>>) -> Seq<Seq<usize>> {
    groups.map_values(|g: Vec<usize>| g@)
}

/// The chained path visits every point of every group exactly once.
pub proof fn lemma_chain_permutation(d: Seq<Seq<u64>>, reference: int, groups: Seq<Seq<usize>>)
    ensures
        chain(d, reference, groups).to_multiset() == all_points(groups).to_multiset(),
        chain(d, reference, groups).len() == all_points(groups).len(),
    decreases groups.len(),
{
    broadcast use vstd::seq_lib::group_to_multiset_ensures;

    if groups.len() > 0 {
        let seg = tour(d, reference, groups[0]);
        let next = if seg.len() == 0 {
            reference
        } else {
            seg.last() as int
        };
        lemma_tour_permutation(d, reference, groups[0]);
        lemma_chain_permutation(d, next, groups.drop_first());
        vstd::seq_lib::lemma_multiset_commutative(seg, chain(d, next, groups.drop_first()));
        vstd::seq_lib::lemma_multiset_commutative(groups[0], all_points(groups.drop_first()));
    }
}

/// Chaining a single group is touring that group.
pub proof fn lemma_chain_single(d: Seq<Seq<u64>>, reference: int, g: Seq<usize>)
    ensures
        chain(d, reference, seq![g]) == tour(d, reference, g),
{
    let gs = seq![g];
    let seg = tour(d, reference, g);
    let next = if seg.len() == 0 {
        reference
    } else {
        seg.last() as int
    };
    assert(gs.drop_first() =~= Seq::<Seq<usize>>::empty());
    assert(chain(d, next, gs.drop_first()) == Seq::<usize>::empty());
    assert(seg + Seq::<usize>::empty() =~= seg);
}

/// An empty group anywhere among the groups changes nothing: the path is the
/// one of the groups without it.
pub proof fn lemma_chain_skips_empty(
    d: Seq<Seq<u64>>,
    reference: int,
    before: Seq<Seq<usize>>,
    empty: Seq<usize>,
    after: Seq<Seq<usize>>,
)
    requires
        empty.len() == 0,
    ensures
        chain(d, reference, before + seq![empty] + after) == chain(d, reference, before + after),
    decreases before.len(),
{
    let with = before + seq![empty] + after;
    let without = before + after;
    if before.len() == 0 {
        assert(with.drop_first() =~= after);
        assert(without =~= after);
        assert(tour(d, reference, empty) == Seq::<usize>::empty());
        assert(Seq::<usize>::empty() + chain(d, reference, after) =~= chain(d, reference, after));
    } else {
        let seg = tour(d, reference, before[0]);
        let next = if seg.len() == 0 {
            reference
        } else {
            seg.last() as int
        };
        assert(with[0] == before[0]);
        assert(without[0] == before[0]);
        assert(with.drop_first() =~= before.drop_first() + seq![empty] + after);
        assert(without.drop_first() =~= before.drop_first() + after);
        lemma_chain_skips_empty(d, next, before.drop_first(), empty, after);
    }
}

/// One group further along the chain: the path from `reference` over the groups
/// `rest` is the tour of the first one, then the chain from where it ended.
pub(crate) proof fn lemma_chain_step(
    d: Seq<Seq<u64>>,
    reference: int,
    rest: Seq<Seq<usize>>,
    path: Seq<usize>,
    seg: Seq<usize>,
    next: int,
)
    requires
        rest.len() > 0,
        seg == tour(d, reference, rest[0]),
        next == (if seg.len() == 0 {
            reference
        } else {
            seg.last() as int
        }),
    ensures
        path + chain(d, reference, rest) == (path + seg) + chain(d, next, rest.drop_first()),
{
    assert(path + (seg + chain(d, next, rest.drop_first())) =~= (path + seg) + chain(
        d,
        next,
        rest.drop_first(),
    ));
}

/// Number of points in the first `k` groups.
pub open spec fn points_before(sizes: Seq<usize>, k: int) -> int
    decreases k,
{
    if k <= 0 {
        0
    } else {
        points_before(sizes, k - 1) + sizes[k - 1]
    }
}

/// The nodes of one request: node 0 is the origin, and the points of the
/// groups follow it in order, so that group `k` holds the `sizes[k]` nodes
/// after the points of the groups before it.
pub open spec fn numbered_groups(sizes: Seq<usize>) -> Seq<Seq<usize>> {
    Seq::new(
        sizes.len(),
        |k: int| Seq::new(sizes[k] as nat, |i: int| (1 + points_before(sizes, k) + i) as usize),
    )
}

pub(crate) proof fn lemma_points_before_grows(sizes: Seq<usize>, j: int, k: int)
    requires
        0 <= j <= k <= sizes.len(),
    ensures
        points_before(sizes, j) <= points_before(sizes, k),
    decreases k - j,
{
    if j < k {
        lemma_points_before_grows(sizes, j, k - 1);
    }
}

/// Every row of `d` has one key for each node.
pub open spec fn is_square(d: Seq<Seq<u64>>) -> bool {
    forall|i: int| 0 <= i < d.len() ==> (#[trigger] d[i]).len() == d.len()
}

/// Every node in `c` is a row of a table with `n` rows.
pub open spec fn nodes_below(c: Seq<usize>, n: int) -> bool {
    forall|j: int| 0 <= j < c.len() ==> (#[trigger] c[j]) < n
}

} // verus!
