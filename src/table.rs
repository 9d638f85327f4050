//! A table of distance keys between the nodes of a request, and the verified
//! greedy ordering over it.
use vstd::prelude::*;

use crate::tour::{
    all_points, chain, group_views, is_square, lemma_chain_permutation, lemma_chain_step,
    lemma_nearest_upto, lemma_points_before_grows, lemma_tour_permutation, nearest_pos,
    nearest_upto, nodes_below, numbered_groups, points_before, tour,
};

verus! {

/// Square table of distance keys between the nodes of one routing request: the
/// key at row `a`, column `b` orders the distance from node `a` to node `b`.
/// Smaller keys mean nearer; equal keys mean equally near.
pub struct DistanceTable {
    rows: Vec<Vec<u64>>,
}

impl View for DistanceTable {
    type V = Seq<Seq<u64>>;

    closed spec fn view(&self) -> Seq<Seq<u64>> {
        self.rows@.map_values(|r: Vec<u64>| r@)
    }
}

impl DistanceTable {
    #[verifier::type_invariant]
    spec fn inv(&self) -> bool {
        is_square(self@)
    }

    /// Builds a table from its rows; `None` where some row's length differs
    /// from the number of rows.
    pub fn from_rows(rows: Vec<Vec<u64>>) -> (r: Option<DistanceTable>)
        ensures
            r is Some <==> is_square(rows@.map_values(|v: Vec<u64>| v@)),
            r matches Some(t) ==> t@ == rows@.map_values(|v: Vec<u64>| v@),
    {
        let n = rows.len();
        let mut i: usize = 0;
        while i < n
            invariant
                n == rows.len(),
                i <= n,
                forall|j: int| 0 <= j < i ==> (#[trigger] rows@[j])@.len() == n,
            decreases n - i,
        {
            if rows[i].len() != n {
                assert(rows@.map_values(|v: Vec<u64>| v@)[i as int].len() != n);
                return None;
            }
            i += 1;
        }
        let t = DistanceTable { rows };
        assert(is_square(t@));
        Some(t)
    }

    /// Number of nodes.
    pub fn size(&self) -> (r: usize)
        ensures
            r == self@.len(),
    {
        self.rows.len()
    }

    /// Key of the distance from node `a` to node `b`.
    pub fn key(&self, a: usize, b: usize) -> (r: u64)
        requires
            a < self@.len(),
            b < self@.len(),
        ensures
            r == self@[a as int][b as int],
    {
        proof {
            use_type_invariant(self);
            assert(self.rows@[a as int]@ == self@[a as int]);
        }
        self.rows[a][b]
    }

    /// Position in `candidates` of the node nearest to `from`. On equal keys the
    /// earliest position wins: a later candidate replaces the best one so far only
    /// when strictly nearer.
    pub fn min_point(&self, from: usize, candidates: &Vec<usize>) -> (r: usize)
        requires
            from < self@.len(),
            candidates.len() > 0,
            nodes_below(candidates@, self@.len() as int),
        ensures
            r == nearest_pos(self@, from as int, candidates@),
            r < candidates.len(),
            forall|j: int|
                0 <= j < candidates.len() ==> self@[from as int][candidates@[r as int] as int]
                    <= self@[from as int][#[trigger] candidates@[j] as int],
            forall|j: int|
                0 <= j < r ==> self@[from as int][candidates@[r as int] as int]
                    < self@[from as int][#[trigger] candidates@[j] as int],
    {
        proof {
            use_type_invariant(self);
        }
        let row = &self.rows[from];
        assert(row@ == self@[from as int]);
        let mut best: usize = 0;
        let mut best_key: u64 = row[candidates[0]];
        let mut i: usize = 1;
        while i < candidates.len()
            invariant
                1 <= i <= candidates.len(),
                row@ == self@[from as int],
                row@.len() == self@.len(),
                nodes_below(candidates@, self@.len() as int),
                best as int == nearest_upto(self@, from as int, candidates@, i as int),
                best < i,
                best_key == self@[from as int][candidates@[best as int] as int],
            decreases candidates.len() - i,
        {
            let k = row[candidates[i]];
            if k < best_key {
                best = i;
                best_key = k;
            }
            i += 1;
        }
        proof {
            lemma_nearest_upto(self@, from as int, candidates@, candidates.len() as int);
        }
        best
    }

    /// Orders `points` greedily from node `start`: repeatedly visits the point
    /// nearest to the current node, earliest position first on equal keys, and
    /// moves there. The result is a permutation of `points`.
    pub fn nearest_neighbor(&self, start: usize, points: Vec<usize>) -> (r: Vec<usize>)
        requires
            start < self@.len(),
            nodes_below(points@, self@.len() as int),
        ensures
            r@ == tour(self@, start as int, points@),
            r@.to_multiset() == points@.to_multiset(),
            r.len() == points.len(),
            nodes_below(r@, self@.len() as int),
    {
        let ghost all = points@;
        let mut path: Vec<usize> = Vec::new();
        let mut unvisited = points;
        let mut current = start;
        while unvisited.len() > 0
            invariant
                current < self@.len(),
                nodes_below(unvisited@, self@.len() as int),
                nodes_below(path@, self@.len() as int),
                path@ + tour(self@, current as int, unvisited@) == tour(self@, start as int, all),
            decreases unvisited.len(),
        {
            let i = self.min_point(current, &unvisited);
            let ghost before = unvisited@;
            let next = unvisited.remove(i);
            proof {
                assert(path@ + tour(self@, current as int, before) == path@.push(next) + tour(
                    self@,
                    next as int,
                    unvisited@,
                )) by {
                    assert(tour(self@, current as int, before) == seq![next] + tour(
                        self@,
                        next as int,
                        unvisited@,
                    ));
                    assert(path@ + (seq![next] + tour(self@, next as int, unvisited@)) =~= path@.push(
                        next,
                    ) + tour(self@, next as int, unvisited@));
                }
                assert forall|j: int| 0 <= j < unvisited@.len() implies (#[trigger] unvisited@[j])
                    < self@.len() by {
                    if j < i {
                        assert(unvisited@[j] == before[j]);
                    } else {
                        assert(unvisited@[j] == before[j + 1]);
                    }
                }
            }
            path.push(next);
            current = next;
        }
        proof {
            assert(path@ + Seq::<usize>::empty() =~= path@);
            lemma_tour_permutation(self@, start as int, all);
        }
        path
    }

    /// Orders the groups in turn from node `origin`: each group is ordered by
    /// `nearest_neighbor` from the last node of the previous non-empty group, and
    /// the orders are joined. An empty group adds nothing and does not move the
    /// reference node.
    pub fn nearest_neighbor_chain(&self, origin: usize, groups: &Vec<Vec<usize>>) -> (r: Vec<usize>)
        requires
            origin < self@.len(),
            forall|g: int|
                0 <= g < groups.len() ==> nodes_below(#[trigger] groups@[g]@, self@.len() as int),
        ensures
            r@ == chain(self@, origin as int, group_views(groups@)),
            r@.to_multiset() == all_points(group_views(groups@)).to_multiset(),
    {
        let ghost gs = group_views(groups@);
        let mut path: Vec<usize> = Vec::new();
        let mut reference = origin;
        let mut g: usize = 0;
        assert(gs.subrange(0, gs.len() as int) =~= gs);
        assert(path@ + chain(self@, origin as int, gs) =~= chain(self@, origin as int, gs));
        while g < groups.len()
            invariant
                g <= groups.len(),
                gs == group_views(groups@),
                reference < self@.len(),
                forall|k: int|
                    0 <= k < groups.len() ==> nodes_below(#[trigger] groups@[k]@, self@.len() as int),
                path@ + chain(self@, reference as int, gs.subrange(g as int, gs.len() as int))
                    == chain(self@, origin as int, gs),
            decreases groups.len() - g,
        {
            let ghost rest = gs.subrange(g as int, gs.len() as int);
            let mut segment = self.nearest_neighbor(reference, groups[g].clone());
            let ghost seg = segment@;
            let ghost old_path = path@;
            let ghost old_ref = reference;
            if segment.len() > 0 {
                reference = segment[segment.len() - 1];
            }
            path.append(&mut segment);
            proof {
                assert(rest[0] == groups@[g as int]@);
                assert(rest.drop_first() =~= gs.subrange(g + 1, gs.len() as int));
                lemma_chain_step(self@, old_ref as int, rest, old_path, seg, reference as int);
            }
            g += 1;
        }
        proof {
            assert(gs.subrange(g as int, gs.len() as int) =~= Seq::<Seq<usize>>::empty());
            assert(path@ + Seq::<usize>::empty() =~= path@);
            lemma_chain_permutation(self@, origin as int, gs);
        }
        path
    }

    /// Orders one request whose nodes are numbered as `numbered_groups` says:
    /// origin 0, then the groups' points in order, `group_sizes[k]` of them in
    /// group `k`. `None` where the table does not hold exactly that many nodes.
    pub fn optimize_waypoints(&self, group_sizes: &Vec<usize>) -> (r: Option<Vec<usize>>)
        ensures
            r is Some <==> self@.len() == 1 + points_before(group_sizes@, group_sizes@.len() as int),
            r matches Some(p) ==> p@ == chain(self@, 0, numbered_groups(group_sizes@)),
    {
        let ghost sizes = group_sizes@;
        let n = self.size();
        if n == 0 {
            proof {
                lemma_points_before_grows(sizes, 0, sizes.len() as int);
            }
            return None;
        }
        let mut groups: Vec<Vec<usize>> = Vec::new();
        let mut next: usize = 1;
        let mut k: usize = 0;
        while k < group_sizes.len()
            invariant
                n == self@.len(),
                sizes == group_sizes@,
                k <= sizes.len(),
                next == 1 + points_before(sizes, k as int),
                next <= n,
                groups.len() == k,
                forall|j: int| 0 <= j < k ==> (#[trigger] groups@[j])@ == numbered_groups(sizes)[j],
                forall|j: int|
                    0 <= j < k ==> nodes_below(#[trigger] groups@[j]@, next as int),
            decreases sizes.len() - k,
        {
            let size = group_sizes[k];
            if size > n - next {
                proof {
                    lemma_points_before_grows(sizes, k + 1, sizes.len() as int);
                }
                return None;
            }
            let mut group: Vec<usize> = Vec::new();
            let mut i: usize = 0;
            while i < size
                invariant
                    i <= size,
                    next + size <= n,
                    group@.len() == i,
                    forall|t: int| 0 <= t < i ==> #[trigger] group@[t] == next + t,
                decreases size - i,
            {
                group.push(next + i);
                i += 1;
            }
            proof {
                assert(group@ =~= numbered_groups(sizes)[k as int]);
            }
            let ghost before = groups@;
            let ghost old_next = next;
            groups.push(group);
            next = next + size;
            k += 1;
            proof {
                assert forall|j: int| 0 <= j < k implies nodes_below(
                    #[trigger] groups@[j]@,
                    next as int,
                ) by {
                    if j < k - 1 {
                        assert(groups@[j] == before[j]);
                        assert(nodes_below(before[j]@, old_next as int));
                        assert forall|t: int| 0 <= t < groups@[j]@.len() implies (#[trigger] groups@[j]@[t])
                            < next by {
                            assert(before[j]@[t] < old_next);
                        }
                    }
                }
            }
        }
        if next != n {
            return None;
        }
        proof {
            assert(group_views(groups@) =~= numbered_groups(sizes));
        }
        Some(self.nearest_neighbor_chain(0, &groups))
    }
}

} // verus!
