//! Laws on the DBSCAN clustering of symmetric neighbour lists: the grouping of
//! core points is the connectivity of the core points, so it does not depend on
//! the order in which the points are numbered.

use vstd::prelude::*;
use crate::dbscan::{
    groups_chained, in_group, is_chain, is_clustering, is_core, is_seed, lemma_core_neighbours_together,
    lists_symmetric, lists_valid, reaches, groups_cover, groups_disjoint, groups_seeded,
};
use vstd::relations::injective_on;
use vstd::set_lib::{lemma_int_range, lemma_map_size, set_int_range};

verus! {

/// `path` runs through core points, each listing the next.
pub open spec fn is_core_path(nb: Seq<Seq<usize>>, path: Seq<int>) -> bool {
    &&& path.len() > 0
    &&& forall|a: int| 0 <= a < path.len() ==> #[trigger] is_core(nb, path[a])
    &&& forall|a: int| 0 <= a < path.len() - 1 ==> #[trigger] reaches(nb, path[a], path[a + 1])
}

/// Whether a path of core points leads from `p` to `q`.
pub open spec fn core_connected(nb: Seq<Seq<usize>>, p: int, q: int) -> bool {
    exists|path: Seq<int>| #[trigger] is_core_path(nb, path) && path[0] == p && path.last() == q
}

/// Whether `p` and `q` are in one group of `g`.
pub open spec fn same_group(g: Seq<Seq<usize>>, p: int, q: int) -> bool {
    exists|k: int| #[trigger] in_group(g, k, p) && in_group(g, k, q)
}

/// Along a path of core points, every point is in the group of the first.
proof fn lemma_core_path_grouped(nb: Seq<Seq<usize>>, g: Seq<Seq<usize>>, path: Seq<int>)
    requires
        is_clustering(nb, g),
        lists_symmetric(nb),
        is_core_path(nb, path),
    ensures
        forall|k: int| #[trigger] in_group(g, k, path[0]) <==> in_group(g, k, path.last()),
    decreases path.len(),
{
    if path.len() > 1 {
        let prefix = path.drop_last();
        assert forall|a: int| 0 <= a < prefix.len() implies #[trigger] is_core(nb, prefix[a]) by {
            assert(is_core(nb, path[a]));
        }
        assert forall|a: int| 0 <= a < prefix.len() - 1 implies #[trigger] reaches(nb, prefix[a], prefix[a + 1]) by {
            assert(reaches(nb, path[a], path[a + 1]));
        }
        lemma_core_path_grouped(nb, g, prefix);
        let n = path.len() - 1;
        assert(reaches(nb, path[n - 1], path[n - 1 + 1]));
        assert(is_core(nb, path[n]));
        lemma_core_neighbours_together(nb, g, path[n], path[n - 1]);
        assert(prefix.last() == path[n - 1]);
        assert(prefix[0] == path[0]);
        assert forall|k: int| #[trigger] in_group(g, k, path[0]) <==> in_group(g, k, path.last()) by {
            assert(in_group(g, k, prefix[0]) <==> in_group(g, k, prefix.last()));
            assert(in_group(g, k, path[n]) <==> in_group(g, k, path[n - 1]));
        }
    }
}

/// Reversing a path of core points of symmetric lists gives a path of core points.
proof fn lemma_core_path_reverse(nb: Seq<Seq<usize>>, path: Seq<int>)
    requires
        nb.len() <= usize::MAX,
        lists_symmetric(nb),
        is_core_path(nb, path),
    ensures
        is_core_path(nb, path.reverse()),
{
    let r = path.reverse();
    let n = path.len();
    assert forall|a: int| 0 <= a < r.len() implies #[trigger] is_core(nb, r[a]) by {
        assert(r[a] == path[n - 1 - a]);
    }
    assert forall|a: int| 0 <= a < r.len() - 1 implies #[trigger] reaches(nb, r[a], r[a + 1]) by {
        let u = path[n - 2 - a];
        let v = path[n - 1 - a];
        assert(r[a] == v && r[a + 1] == u);
        assert(reaches(nb, path[n - 2 - a], path[n - 2 - a + 1]));
        assert(nb[u].contains(v as usize));
        assert(nb[v].contains(u as usize));
        assert(is_core(nb, path[n - 1 - a]));
        assert(reaches(nb, v, u));
    }
}

/// Two paths of core points joined at a common point make one.
proof fn lemma_core_path_join(nb: Seq<Seq<usize>>, a: Seq<int>, b: Seq<int>)
    requires
        is_core_path(nb, a),
        is_core_path(nb, b),
        a.last() == b[0],
    ensures
        is_core_path(nb, a + b.drop_first()),
        (a + b.drop_first())[0] == a[0],
        (a + b.drop_first()).last() == b.last(),
{
    let c = a + b.drop_first();
    assert forall|t: int| 0 <= t < c.len() implies #[trigger] is_core(nb, c[t]) by {
        if t < a.len() {
            assert(c[t] == a[t]);
        } else {
            assert(c[t] == b[t - a.len() + 1]);
        }
    }
    assert forall|t: int| 0 <= t < c.len() - 1 implies #[trigger] reaches(nb, c[t], c[t + 1]) by {
        if t < a.len() - 1 {
            assert(c[t] == a[t] && c[t + 1] == a[t + 1]);
        } else if t == a.len() - 1 {
            assert(c[t] == b[0] && c[t + 1] == b[1]);
            assert(reaches(nb, b[0int], b[0int + 1]));
        } else {
            let u = t - a.len() + 1;
            assert(c[t] == b[u] && c[t + 1] == b[u + 1]);
        }
    }
    if b.len() == 1 {
        assert(c =~= a);
    } else {
        assert(c.last() == b[b.len() - 1]);
    }
}

/// A chain from a group's seed to a core point is a path of core points.
proof fn lemma_chain_is_core_path(nb: Seq<Seq<usize>>, g: Seq<Seq<usize>>, k: int, path: Seq<int>)
    requires
        is_chain(nb, g, k, path),
        is_core(nb, path.last()),
    ensures
        is_core_path(nb, path),
{
    assert forall|a: int| 0 <= a < path.len() implies #[trigger] is_core(nb, path[a]) by {
        if a < path.len() - 1 {
            assert(reaches(nb, path[a], path[a + 1]));
        }
    }
}

/// Core points joined by a path of core points share a group.
proof fn lemma_connected_grouped(nb: Seq<Seq<usize>>, g: Seq<Seq<usize>>, p: int, q: int)
    requires
        is_clustering(nb, g),
        lists_symmetric(nb),
        is_core(nb, p),
        core_connected(nb, p, q),
    ensures
        same_group(g, p, q),
{
    reveal(groups_cover);
    let path = choose|path: Seq<int>| #[trigger] is_core_path(nb, path) && path[0] == p && path.last() == q;
    lemma_core_path_grouped(nb, g, path);
    assert(exists|k: int| #[trigger] in_group(g, k, p));
    let k = choose|k: int| #[trigger] in_group(g, k, p);
    assert(in_group(g, k, q));
}

/// Core points that share a group are joined by a path of core points.
proof fn lemma_grouped_connected(nb: Seq<Seq<usize>>, g: Seq<Seq<usize>>, p: int, q: int)
    requires
        nb.len() <= usize::MAX,
        is_clustering(nb, g),
        lists_symmetric(nb),
        is_core(nb, p),
        is_core(nb, q),
        same_group(g, p, q),
    ensures
        core_connected(nb, p, q),
{
    reveal(groups_chained);
    let k = choose|k: int| #[trigger] in_group(g, k, p) && in_group(g, k, q);
    let cp = choose|path: Seq<int>| #[trigger] is_chain(nb, g, k, path) && is_seed(nb, g, k, path[0]) && path.last() == p;
    let cq = choose|path: Seq<int>| #[trigger] is_chain(nb, g, k, path) && is_seed(nb, g, k, path[0]) && path.last() == q;
    lemma_chain_is_core_path(nb, g, k, cp);
    lemma_chain_is_core_path(nb, g, k, cq);
    assert(cp[0] == cq[0]) by {
        assert(is_seed(nb, g, k, cp[0]));
        assert(is_seed(nb, g, k, cq[0]));
        assert(cp[0] <= cq[0]);
        assert(cq[0] <= cp[0]);
    }
    lemma_core_path_reverse(nb, cp);
    let r = cp.reverse();
    assert(r[0] == p && r.last() == cp[0]);
    lemma_core_path_join(nb, r, cq);
    assert(is_core_path(nb, r + cq.drop_first()));
}

/// With symmetric neighbour lists, two core points share a group exactly when
/// a path of core points leads from one to the other.
pub proof fn lemma_grouping_is_connectivity(nb: Seq<Seq<usize>>, g: Seq<Seq<usize>>, p: int, q: int)
    requires
        nb.len() <= usize::MAX,
        is_clustering(nb, g),
        lists_symmetric(nb),
        is_core(nb, p),
        is_core(nb, q),
    ensures
        same_group(g, p, q) <==> core_connected(nb, p, q),
{
    if core_connected(nb, p, q) {
        lemma_connected_grouped(nb, g, p, q);
    }
    if same_group(g, p, q) {
        lemma_grouped_connected(nb, g, p, q);
    }
}


/// `perm` and `inv` are mutually inverse renumberings of the points `0..n`.
pub open spec fn is_renumbering(perm: Seq<usize>, inv: Seq<usize>, n: int) -> bool {
    &&& perm.len() == n
    &&& inv.len() == n
    &&& forall|k: int| 0 <= k < n ==> (#[trigger] perm[k]) < n && inv[perm[k] as int] == k
    &&& forall|k: int| 0 <= k < n ==> (#[trigger] inv[k]) < n && perm[inv[k] as int] == k
}

/// The neighbour lists of the same points numbered anew: the new point `k`
/// is the old point `perm[k]`, and the old point `x` is the new point `inv[x]`.
pub open spec fn renumbered(nb: Seq<Seq<usize>>, perm: Seq<usize>, inv: Seq<usize>) -> Seq<Seq<usize>> {
    Seq::new(nb.len(), |k: int| nb[perm[k] as int].map_values(|x: usize| inv[x as int]))
}

/// Lists and neighbourhoods carry over point by point to the renumbered lists.
proof fn lemma_renumbered_lists(nb: Seq<Seq<usize>>, perm: Seq<usize>, inv: Seq<usize>)
    requires
        nb.len() <= usize::MAX,
        lists_valid(nb),
        is_renumbering(perm, inv, nb.len() as int),
    ensures
        renumbered(nb, perm, inv).len() == nb.len(),
        forall|k: int| 0 <= k < nb.len() ==> #[trigger] renumbered(nb, perm, inv)[k].len() == nb[perm[k] as int].len(),
        forall|a: int, b: int| 0 <= a < nb.len() && 0 <= b < nb.len() ==>
            (#[trigger] renumbered(nb, perm, inv)[a].contains(b as usize) <==> nb[perm[a] as int].contains(perm[b])),
        forall|a: int, b: int| 0 <= a < nb.len() && 0 <= b < nb.len() ==>
            (#[trigger] nb[a].contains(b as usize) <==> renumbered(nb, perm, inv)[inv[a] as int].contains(inv[b])),
{
    let m = renumbered(nb, perm, inv);
    let n = nb.len() as int;
    assert forall|a: int, b: int| 0 <= a < n && 0 <= b < n implies
        (#[trigger] m[a].contains(b as usize) <==> nb[perm[a] as int].contains(perm[b])) by {
        let pa = perm[a] as int;
        let row = nb[pa];
        assert(m[a] == row.map_values(|x: usize| inv[x as int]));
        if m[a].contains(b as usize) {
            let j = choose|j: int| 0 <= j < m[a].len() && m[a][j] == b as usize;
            assert(row[j] < n);
            assert(inv[row[j] as int] == b);
            assert(perm[inv[row[j] as int] as int] == row[j]);
            assert(row[j] == perm[b]);
            assert(row.contains(perm[b]));
        }
        if row.contains(perm[b]) {
            let j = choose|j: int| 0 <= j < row.len() && row[j] == perm[b];
            assert(m[a][j] == inv[perm[b] as int]);
            assert(m[a][j] == b as usize);
        }
    }
    assert forall|a: int, b: int| 0 <= a < n && 0 <= b < n implies
        (#[trigger] nb[a].contains(b as usize) <==> m[inv[a] as int].contains(inv[b])) by {
        let ia = inv[a] as int;
        let ib = inv[b] as int;
        assert(m[ia].contains(ib as usize) <==> nb[perm[ia] as int].contains(perm[ib]));
        assert(perm[ia] == a && perm[ib] == b);
    }
}

/// Core points and the reach between points carry over to the renumbered lists.
proof fn lemma_renumbered_reach(nb: Seq<Seq<usize>>, perm: Seq<usize>, inv: Seq<usize>)
    requires
        nb.len() <= usize::MAX,
        lists_valid(nb),
        is_renumbering(perm, inv, nb.len() as int),
    ensures
        forall|a: int| 0 <= a < nb.len() ==> (#[trigger] is_core(renumbered(nb, perm, inv), a) <==> is_core(nb, perm[a] as int)),
        forall|a: int| 0 <= a < nb.len() ==> (#[trigger] is_core(nb, a) <==> is_core(renumbered(nb, perm, inv), inv[a] as int)),
        forall|a: int, b: int| 0 <= a < nb.len() && 0 <= b < nb.len() ==>
            (#[trigger] reaches(renumbered(nb, perm, inv), a, b) <==> reaches(nb, perm[a] as int, perm[b] as int)),
        forall|a: int, b: int| 0 <= a < nb.len() && 0 <= b < nb.len() ==>
            (#[trigger] reaches(nb, a, b) <==> reaches(renumbered(nb, perm, inv), inv[a] as int, inv[b] as int)),
{
    lemma_renumbered_lists(nb, perm, inv);
    let m = renumbered(nb, perm, inv);
    let n = nb.len() as int;
    assert forall|a: int| 0 <= a < n implies (#[trigger] is_core(nb, a) <==> is_core(m, inv[a] as int)) by {
        assert(m[inv[a] as int].len() == nb[perm[inv[a] as int] as int].len());
    }
    assert forall|a: int, b: int| 0 <= a < n && 0 <= b < n implies
        (#[trigger] reaches(m, a, b) <==> reaches(nb, perm[a] as int, perm[b] as int)) by {
        assert(m[a].contains(b as usize) <==> nb[perm[a] as int].contains(perm[b]));
        assert(m[a].len() == nb[perm[a] as int].len());
    }
    assert forall|a: int, b: int| 0 <= a < n && 0 <= b < n implies
        (#[trigger] reaches(nb, a, b) <==> reaches(m, inv[a] as int, inv[b] as int)) by {
        assert(nb[a].contains(b as usize) <==> m[inv[a] as int].contains(inv[b]));
        assert(m[inv[a] as int].len() == nb[perm[inv[a] as int] as int].len());
    }
}

/// Renumbering keeps the neighbour lists valid and symmetric.
proof fn lemma_renumbered_symmetric(nb: Seq<Seq<usize>>, perm: Seq<usize>, inv: Seq<usize>)
    requires
        nb.len() <= usize::MAX,
        lists_valid(nb),
        lists_symmetric(nb),
        is_renumbering(perm, inv, nb.len() as int),
    ensures
        lists_valid(renumbered(nb, perm, inv)),
        lists_symmetric(renumbered(nb, perm, inv)),
{
    lemma_renumbered_lists(nb, perm, inv);
    let m = renumbered(nb, perm, inv);
    let n = nb.len() as int;
    assert forall|p: int, j: int| 0 <= p < m.len() && 0 <= j < m[p].len() implies #[trigger] m[p][j] < m.len() by {
        let row = nb[perm[p] as int];
        assert(m[p] == row.map_values(|x: usize| inv[x as int]));
        assert(row[j] < n);
    }
    assert forall|p: int, q: int| 0 <= p < m.len() && 0 <= q < m.len() implies
        (#[trigger] m[p].contains(q as usize) <==> #[trigger] m[q].contains(p as usize)) by {
        assert(m[p].contains(q as usize) <==> nb[perm[p] as int].contains(perm[q]));
        assert(m[q].contains(p as usize) <==> nb[perm[q] as int].contains(perm[p]));
        assert(nb[perm[p] as int].contains(perm[q] as int as usize) <==> nb[perm[q] as int].contains(perm[p] as int as usize));
    }
}

/// A path of core points, renumbered, is a path of core points of the renumbered lists.
proof fn lemma_renumbered_path(nb: Seq<Seq<usize>>, perm: Seq<usize>, inv: Seq<usize>, path: Seq<int>)
    requires
        nb.len() <= usize::MAX,
        lists_valid(nb),
        is_renumbering(perm, inv, nb.len() as int),
        is_core_path(nb, path),
    ensures
        is_core_path(renumbered(nb, perm, inv), path.map_values(|x: int| inv[x] as int)),
{
    lemma_renumbered_reach(nb, perm, inv);
    let m = renumbered(nb, perm, inv);
    let t = path.map_values(|x: int| inv[x] as int);
    assert forall|a: int| 0 <= a < t.len() implies #[trigger] is_core(m, t[a]) by {
        assert(is_core(nb, path[a]));
    }
    assert forall|a: int| 0 <= a < t.len() - 1 implies #[trigger] reaches(m, t[a], t[a + 1]) by {
        assert(reaches(nb, path[a], path[a + 1]));
        assert(is_core(nb, path[a]));
    }
}

/// A path of core points of the renumbered lists, taken back, is a path of core points.
proof fn lemma_renumbered_path_back(nb: Seq<Seq<usize>>, perm: Seq<usize>, inv: Seq<usize>, path: Seq<int>)
    requires
        nb.len() <= usize::MAX,
        lists_valid(nb),
        is_renumbering(perm, inv, nb.len() as int),
        is_core_path(renumbered(nb, perm, inv), path),
    ensures
        is_core_path(nb, path.map_values(|x: int| perm[x] as int)),
{
    lemma_renumbered_reach(nb, perm, inv);
    let m = renumbered(nb, perm, inv);
    let t = path.map_values(|x: int| perm[x] as int);
    assert forall|a: int| 0 <= a < t.len() implies #[trigger] is_core(nb, t[a]) by {
        assert(is_core(m, path[a]));
    }
    assert forall|a: int| 0 <= a < t.len() - 1 implies #[trigger] reaches(nb, t[a], t[a + 1]) by {
        assert(reaches(m, path[a], path[a + 1]));
        assert(is_core(m, path[a]));
    }
}

/// Numbering the points anew changes nothing but the numbers: with symmetric
/// neighbour lists, a point is a core point, is clustered, and (for two core
/// points) shares a group exactly when the same holds of it under its old
/// number.
pub proof fn lemma_renumbering_keeps_clusters(
    nb: Seq<Seq<usize>>,
    perm: Seq<usize>,
    inv: Seq<usize>,
    g: Seq<Seq<usize>>,
    h: Seq<Seq<usize>>,
    a: int,
    b: int,
)
    requires
        nb.len() <= usize::MAX,
        lists_valid(nb),
        lists_symmetric(nb),
        is_renumbering(perm, inv, nb.len() as int),
        is_clustering(nb, g),
        is_clustering(renumbered(nb, perm, inv), h),
        0 <= a < nb.len(),
        0 <= b < nb.len(),
    ensures
        is_core(renumbered(nb, perm, inv), a) <==> is_core(nb, perm[a] as int),
        (exists|k: int| #[trigger] in_group(h, k, a)) <==> (exists|k: int| #[trigger] in_group(g, k, perm[a] as int)),
        is_core(renumbered(nb, perm, inv), a) && is_core(renumbered(nb, perm, inv), b) ==>
            (same_group(h, a, b) <==> same_group(g, perm[a] as int, perm[b] as int)),
{
    let m = renumbered(nb, perm, inv);
    let n = nb.len() as int;
    let pa = perm[a] as int;
    let pb = perm[b] as int;
    lemma_renumbered_lists(nb, perm, inv);
    lemma_renumbered_reach(nb, perm, inv);
    lemma_renumbered_symmetric(nb, perm, inv);
    reveal(groups_cover);
    // the clustered points
    assert((is_core(m, a) || exists|q: int| #[trigger] reaches(m, q, a)) <==> (is_core(nb, pa) || exists|q: int| #[trigger] reaches(nb, q, pa))) by {
        if exists|q: int| #[trigger] reaches(m, q, a) {
            let q = choose|q: int| #[trigger] reaches(m, q, a);
            assert(reaches(nb, perm[q] as int, pa));
        }
        if exists|q: int| #[trigger] reaches(nb, q, pa) {
            let q = choose|q: int| #[trigger] reaches(nb, q, pa);
            assert(reaches(m, inv[q] as int, inv[pa] as int));
            assert(inv[pa] as int == a);
        }
    }
    // the grouping of core points
    if is_core(m, a) && is_core(m, b) {
        lemma_grouping_is_connectivity(m, h, a, b);
        lemma_grouping_is_connectivity(nb, g, pa, pb);
        if core_connected(m, a, b) {
            let path = choose|path: Seq<int>| #[trigger] is_core_path(m, path) && path[0] == a && path.last() == b;
            lemma_renumbered_path_back(nb, perm, inv, path);
            let t = path.map_values(|x: int| perm[x] as int);
            assert(t[0] == pa && t.last() == pb);
            assert(core_connected(nb, pa, pb));
        }
        if core_connected(nb, pa, pb) {
            let path = choose|path: Seq<int>| #[trigger] is_core_path(nb, path) && path[0] == pa && path.last() == pb;
            lemma_renumbered_path(nb, perm, inv, path);
            let t = path.map_values(|x: int| inv[x] as int);
            assert(inv[pa] as int == a && inv[pb] as int == b);
            assert(t[0] == a && t.last() == b);
            assert(core_connected(m, a, b));
        }
    }
}


/// The seed of group `k`.
spec fn seed_of(nb: Seq<Seq<usize>>, g: Seq<Seq<usize>>, k: int) -> int {
    choose|p: int| #[trigger] is_seed(nb, g, k, p)
}

/// The group that holds `p`.
spec fn group_of(g: Seq<Seq<usize>>, p: int) -> int {
    choose|k: int| #[trigger] in_group(g, k, p)
}

/// The group of the old clustering that holds the seed of the new group `k`.
spec fn matching_group(nb: Seq<Seq<usize>>, perm: Seq<usize>, inv: Seq<usize>, g: Seq<Seq<usize>>, h: Seq<Seq<usize>>, k: int) -> int {
    group_of(g, perm[seed_of(renumbered(nb, perm, inv), h, k)] as int)
}

/// Numbering the points anew keeps the number of clusters: with symmetric
/// neighbour lists, the groups of the renumbered points match the old groups
/// one for one, through the core points they hold.
pub proof fn lemma_renumbering_keeps_cluster_count(
    nb: Seq<Seq<usize>>,
    perm: Seq<usize>,
    inv: Seq<usize>,
    g: Seq<Seq<usize>>,
    h: Seq<Seq<usize>>,
)
    requires
        nb.len() <= usize::MAX,
        lists_valid(nb),
        lists_symmetric(nb),
        is_renumbering(perm, inv, nb.len() as int),
        is_clustering(nb, g),
        is_clustering(renumbered(nb, perm, inv), h),
    ensures
        h.len() == g.len(),
{
    let m = renumbered(nb, perm, inv);
    let n = nb.len() as int;
    lemma_renumbered_lists(nb, perm, inv);
    lemma_renumbered_reach(nb, perm, inv);
    reveal(groups_seeded);
    reveal(groups_disjoint);
    reveal(groups_cover);
    let f = |k: int| matching_group(nb, perm, inv, g, h, k);
    // each new group has a seed whose old number lies in a group of `g`
    assert forall|k: int| 0 <= k < h.len() implies
        #[trigger] is_seed(m, h, k, seed_of(m, h, k)) && in_group(g, f(k), perm[seed_of(m, h, k)] as int) by {
        assert(h[k].len() > 0);
        let s = seed_of(m, h, k);
        assert(is_core(m, s));
        assert(is_core(nb, perm[s] as int));
        assert(exists|j: int| #[trigger] in_group(g, j, perm[s] as int));
    }
    let x = set_int_range(0, h.len() as int);
    let y = set_int_range(0, g.len() as int);
    assert(injective_on(f, x)) by {
        assert forall|k1: int, k2: int| x.contains(k1) && x.contains(k2) && #[trigger] f(k1) == #[trigger] f(k2) implies k1 == k2 by {
            let s1 = seed_of(m, h, k1);
            let s2 = seed_of(m, h, k2);
            assert(is_seed(m, h, k1, s1));
            assert(is_seed(m, h, k2, s2));
            lemma_renumbering_keeps_clusters(nb, perm, inv, g, h, s1, s2);
            assert(same_group(g, perm[s1] as int, perm[s2] as int));
            let k = choose|k: int| #[trigger] in_group(h, k, s1) && in_group(h, k, s2);
            assert(in_group(h, k1, s1));
            assert(k == k1);
            assert(k == k2);
        }
    }
    assert(x.map(f) =~= y) by {
        assert forall|j: int| #[trigger] x.map(f).contains(j) implies y.contains(j) by {
            let k = choose|k: int| x.contains(k) && j == f(k);
            assert(is_seed(m, h, k, seed_of(m, h, k)));
            assert(in_group(g, f(k), perm[seed_of(m, h, k)] as int));
        }
        assert forall|j: int| #[trigger] y.contains(j) implies x.map(f).contains(j) by {
            assert(g[j].len() > 0);
            let t = choose|p: int| #[trigger] is_seed(nb, g, j, p);
            assert(is_core(nb, t));
            let a = inv[t] as int;
            assert(perm[a] as int == t);
            assert(is_core(m, a));
            assert(exists|k: int| #[trigger] in_group(h, k, a));
            let k = choose|k: int| #[trigger] in_group(h, k, a);
            let s = seed_of(m, h, k);
            assert(is_seed(m, h, k, s));
            lemma_renumbering_keeps_clusters(nb, perm, inv, g, h, s, a);
            assert(same_group(h, s, a));
            let j2 = choose|j2: int| #[trigger] in_group(g, j2, perm[s] as int) && in_group(g, j2, perm[a] as int);
            assert(in_group(g, j, t));
            assert(j2 == j);
            assert(in_group(g, f(k), perm[s] as int));
            assert(f(k) == j2);
            assert(x.contains(k));
        }
    }
    lemma_int_range(0, h.len() as int);
    lemma_int_range(0, g.len() as int);
    lemma_map_size(x, y, f);
}

} // verus!
