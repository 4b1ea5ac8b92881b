//! Density-based clustering (DBSCAN) of points given by their neighbour lists.
//!
//! A point is a core point when its neighbour list (which, for an
//! `eps`-ball query, holds the point itself) has at least `MIN_PTS`
//! entries. Scanning the points in index order, every unvisited core point
//! starts a new cluster, which then grows through the neighbour lists of the
//! core points it reaches. A point that is not a core point joins the first
//! cluster that reaches it; a point that no core point reaches is noise.

use vstd::prelude::*;

verus! {

/// Smallest neighbour-list length of a core point.
pub const MIN_PTS: usize = 4;

/// The neighbour lists as sequences.
pub open spec fn lists(nb: Seq<Vec<usize>>) -> Seq<Seq<usize>> {
    nb.map_values(|v: Vec<usize>| v@)
}

/// Every neighbour index names a point.
pub open spec fn lists_valid(nb: Seq<Seq<usize>>) -> bool {
    forall|p: int, j: int| 0 <= p < nb.len() && 0 <= j < nb[p].len() ==> #[trigger] nb[p][j] < nb.len()
}

/// Whether point `p` is a core point.
pub open spec fn is_core(nb: Seq<Seq<usize>>, p: int) -> bool {
    0 <= p < nb.len() && nb[p].len() >= MIN_PTS
}

/// Whether the core point `q` has `p` in its neighbour list.
pub open spec fn reaches(nb: Seq<Seq<usize>>, q: int, p: int) -> bool {
    is_core(nb, q) && 0 <= p < nb.len() && p <= usize::MAX && nb[q].contains(p as usize)
}

/// Number of `false` entries.
spec fn count_false(s: Seq<bool>) -> nat
    decreases s.len(),
{
    if s.len() == 0 {
        0
    } else {
        count_false(s.drop_last()) + if s.last() { 0nat } else { 1nat }
    }
}

proof fn lemma_count_false_set(s: Seq<bool>, i: int)
    requires
        0 <= i < s.len(),
        !s[i],
    ensures
        count_false(s.update(i, true)) + 1 == count_false(s),
    decreases s.len(),
{
    if i < s.len() - 1 {
        lemma_count_false_set(s.drop_last(), i);
        assert(s.update(i, true).drop_last() =~= s.drop_last().update(i, true));
    } else {
        assert(s.update(i, true).drop_last() =~= s.drop_last());
    }
}

fn vec_contains(v: &Vec<usize>, x: usize) -> (b: bool)
    ensures
        b == v@.contains(x),
{
    let mut i: usize = 0;
    while i < v.len()
        invariant
            i <= v@.len(),
            forall|t: int| 0 <= t < i ==> v@[t] != x,
        decreases v@.len() - i,
    {
        if v[i] == x {
            return true;
        }
        i = i + 1;
    }
    false
}

/// Labels of the clustering: `Some(k)` for a point of cluster `k`, `None` for noise.
spec fn labels_ok(nb: Seq<Seq<usize>>, l: Seq<Option<usize>>, count: nat, st: Seq<usize>, ord: Seq<nat>) -> bool {
    &&& l.len() == nb.len()
    &&& st.len() == count
    &&& ord.len() == nb.len()
    // every label names a cluster
    &&& forall|p: int| 0 <= p < l.len() && #[trigger] l[p] is Some ==> l[p].unwrap() < count
    // a point is labelled exactly when it is a core point or a core point reaches it
    &&& forall|p: int| 0 <= p < l.len() ==>
            (#[trigger] l[p] is Some <==> (is_core(nb, p) || exists|q: int| #[trigger] reaches(nb, q, p)))
    // a point belongs to the first cluster that has a core point reaching it
    &&& forall|p: int, q: int| 0 <= p < l.len() && #[trigger] reaches(nb, q, p) ==>
            l[p] is Some && l[q] is Some && l[p].unwrap() <= l[q].unwrap()
    // a point is the seed of its cluster or is reached by a core point of its cluster labelled before it
    &&& forall|p: int| 0 <= p < l.len() && #[trigger] l[p] is Some ==>
            p == st[l[p].unwrap() as int] || exists|q: int| q != p && #[trigger] reaches(nb, q, p) && l[q] == l[p] && ord[q] < ord[p]
    // the seeds are the least core points of their clusters, in increasing order
    &&& forall|k: int| 0 <= k < count ==> is_core(nb, #[trigger] st[k] as int) && l[st[k] as int] == Some(k as usize)
    &&& forall|k1: int, k2: int| 0 <= k1 < k2 < count ==> #[trigger] st[k1] < #[trigger] st[k2]
    &&& forall|q: int| #[trigger] is_core(nb, q) && l[q] is Some ==> st[l[q].unwrap() as int] <= q
}

} // verus!

verus! {

/// State of the scan after the points before `i` have been visited and `c` clusters started.
spec fn scan_inv(
    nb: Seq<Seq<usize>>,
    l: Seq<Option<usize>>,
    v: Seq<bool>,
    i: int,
    c: int,
    st: Seq<usize>,
    ord: Seq<nat>,
    tick: nat,
) -> bool {
    &&& l.len() == nb.len()
    &&& ord.len() == nb.len()
    &&& forall|p: int| 0 <= p < l.len() && #[trigger] l[p] is Some ==> ord[p] < tick
    &&& v.len() == nb.len()
    &&& st.len() == c
    &&& 0 <= c <= i <= nb.len()
    &&& forall|p: int| 0 <= p < l.len() && #[trigger] l[p] is Some ==> v[p] && l[p].unwrap() < c
    &&& forall|p: int| 0 <= p < v.len() && #[trigger] v[p] && is_core(nb, p) ==> l[p] is Some
    &&& forall|p: int, x: int| 0 <= p < v.len() && v[p] && #[trigger] reaches(nb, p, x) ==>
            0 <= x < l.len() && l[x] is Some && l[p] is Some && l[x].unwrap() <= l[p].unwrap()
    &&& forall|p: int| 0 <= p < i ==> #[trigger] v[p]
    &&& forall|p: int| 0 <= p < l.len() && #[trigger] l[p] is Some ==>
            p == st[l[p].unwrap() as int] || exists|q: int| q != p && #[trigger] reaches(nb, q, p) && l[q] == l[p] && ord[q] < ord[p]
    &&& forall|k: int| 0 <= k < c ==> is_core(nb, #[trigger] st[k] as int) && l[st[k] as int] == Some(k as usize) && st[k] < i
    &&& forall|k1: int, k2: int| 0 <= k1 < k2 < c ==> #[trigger] st[k1] < #[trigger] st[k2]
    &&& forall|q: int| #[trigger] is_core(nb, q) && l[q] is Some ==> st[l[q].unwrap() as int] <= q
}

/// State while cluster `c`, seeded at point `i`, grows through the seed list `s`,
/// whose entries before `idx` have been handled.
spec fn grow_inv(
    nb: Seq<Seq<usize>>,
    l: Seq<Option<usize>>,
    v: Seq<bool>,
    i: int,
    c: int,
    st: Seq<usize>,
    s: Seq<usize>,
    idx: int,
    ord: Seq<nat>,
    tick: nat,
) -> bool {
    &&& l.len() == nb.len()
    &&& ord.len() == nb.len()
    &&& forall|p: int| 0 <= p < l.len() && #[trigger] l[p] is Some ==> ord[p] < tick
    &&& v.len() == nb.len()
    &&& st.len() == c
    &&& 0 <= c <= i < nb.len()
    &&& 0 <= idx <= s.len()
    &&& forall|p: int| 0 <= p < l.len() && #[trigger] l[p] is Some ==> v[p] && l[p].unwrap() <= c
    &&& forall|p: int| 0 <= p < v.len() && #[trigger] v[p] && is_core(nb, p) ==> l[p] is Some
    &&& forall|p: int, x: int| 0 <= p < v.len() && v[p] && #[trigger] reaches(nb, p, x) && l[p] is Some
            && l[p].unwrap() < c ==> 0 <= x < l.len() && l[x] is Some && l[x].unwrap() <= l[p].unwrap()
    &&& forall|p: int, x: int| 0 <= p < v.len() && v[p] && #[trigger] reaches(nb, p, x) && l[p] == Some(c as usize)
            ==> 0 <= x < l.len() && (l[x] is Some || s.contains(x as usize))
    &&& forall|p: int| 0 <= p <= i ==> #[trigger] v[p]
    &&& forall|p: int| 0 <= p < l.len() && #[trigger] l[p] is Some && l[p].unwrap() < c ==>
            p == st[l[p].unwrap() as int] || exists|q: int| q != p && #[trigger] reaches(nb, q, p) && l[q] == l[p] && ord[q] < ord[p]
    &&& forall|p: int| 0 <= p < l.len() && #[trigger] l[p] == Some(c as usize) ==>
            p == i || exists|q: int| q != p && #[trigger] reaches(nb, q, p) && l[q] == l[p] && ord[q] < ord[p]
    &&& forall|k: int| 0 <= k < c ==> is_core(nb, #[trigger] st[k] as int) && l[st[k] as int] == Some(k as usize) && st[k] < i
    &&& forall|k1: int, k2: int| 0 <= k1 < k2 < c ==> #[trigger] st[k1] < #[trigger] st[k2]
    &&& forall|q: int| #[trigger] is_core(nb, q) && l[q] is Some && l[q].unwrap() < c ==> st[l[q].unwrap() as int] <= q
    &&& forall|q: int| #[trigger] is_core(nb, q) && l[q] == Some(c as usize) ==> i <= q
    &&& is_core(nb, i)
    &&& l[i] == Some(c as usize)
    &&& forall|p: int| 0 <= p < i && #[trigger] is_core(nb, p) ==> l[p] is Some && l[p].unwrap() < c
    &&& forall|t: int| 0 <= t < s.len() ==> #[trigger] s[t] < nb.len()
    &&& forall|t: int| 0 <= t < idx ==> #[trigger] l[s[t] as int] is Some
    &&& forall|t: int| 0 <= t < s.len() ==> (#[trigger] s[t] == i
            || exists|w: int| w != s[t] && #[trigger] reaches(nb, w, s[t] as int) && l[w] == Some(c as usize))
}

} // verus!

verus! {

fn copy_list(v: &Vec<usize>) -> (r: Vec<usize>)
    ensures
        r@ == v@,
{
    let mut r: Vec<usize> = Vec::new();
    let mut i: usize = 0;
    while i < v.len()
        invariant
            i <= v@.len(),
            r@ == v@.take(i as int),
        decreases v@.len() - i,
    {
        r.push(v[i]);
        assert(v@.take(i as int + 1) =~= v@.take(i as int).push(v@[i as int]));
        i = i + 1;
    }
    assert(v@.take(v@.len() as int) =~= v@);
    r
}

/// Appends to `seeds` every entry of `list` that it does not hold yet.
fn add_neighbors(seeds: &mut Vec<usize>, list: &Vec<usize>, Ghost(q): Ghost<usize>)
    requires
        old(seeds)@.contains(q),
    ensures
        final(seeds)@.len() >= old(seeds)@.len(),
        final(seeds)@.subrange(0, old(seeds)@.len() as int) == old(seeds)@,
        forall|x: usize| list@.contains(x) ==> #[trigger] final(seeds)@.contains(x),
        forall|t: int| old(seeds)@.len() <= t < final(seeds)@.len() ==>
            list@.contains(#[trigger] final(seeds)@[t]) && final(seeds)@[t] != q,
{
    let ghost s0 = seeds@;
    let mut j: usize = 0;
    while j < list.len()
        invariant
            j <= list@.len(),
            s0.contains(q),
            seeds@.len() >= s0.len(),
            seeds@.subrange(0, s0.len() as int) == s0,
            forall|t: int| 0 <= t < j ==> seeds@.contains(#[trigger] list@[t]),
            forall|t: int| s0.len() <= t < seeds@.len() ==>
                list@.contains(#[trigger] seeds@[t]) && seeds@[t] != q,
        decreases list@.len() - j,
    {
        let x: usize = list[j];
        let ghost before = seeds@;
        if !vec_contains(seeds, x) {
            seeds.push(x);
            assert(seeds@.subrange(0, s0.len() as int) =~= before.subrange(0, s0.len() as int));
            assert forall|t: int| 0 <= t < j + 1 implies seeds@.contains(#[trigger] list@[t]) by {
                if t < j {
                    let k: int = choose|k: int| 0 <= k < before.len() && before[k] == list@[t];
                    assert(seeds@[k] == list@[t]);
                } else {
                    assert(seeds@[before.len() as int] == list@[t]);
                }
            }
            assert(q != x) by {
                let k: int = choose|k: int| 0 <= k < s0.len() && s0[k] == q;
                assert(before[k] == q);
            }
            assert(list@.contains(x)) by {
                assert(list@[j as int] == x);
            }
        } else {
            assert forall|t: int| 0 <= t < j + 1 implies seeds@.contains(#[trigger] list@[t]) by {
            }
        }
        j = j + 1;
    }
    assert forall|x: usize| list@.contains(x) implies #[trigger] seeds@.contains(x) by {
        let t: int = choose|t: int| 0 <= t < list@.len() && list@[t] == x;
        assert(seeds@.contains(list@[t]));
    }
}

} // verus!

verus! {

/// Handles the seed at position `idx` of the growing cluster `c`: visits it,
/// queues the neighbours of a core point, and labels it if it has no cluster yet.
#[verifier::rlimit(50)]
#[verifier::spinoff_prover]
fn handle_seed(
    neighbors: &Vec<Vec<usize>>,
    labels: &mut Vec<Option<usize>>,
    visited: &mut Vec<bool>,
    seeds: &mut Vec<usize>,
    idx: usize,
    i: usize,
    c: usize,
    Ghost(st): Ghost<Seq<usize>>,
    Ghost(ord): Ghost<Seq<nat>>,
    Ghost(tick): Ghost<nat>,
) -> (out: Ghost<(Seq<nat>, nat)>)
    requires
        lists_valid(lists(neighbors@)),
        grow_inv(lists(neighbors@), old(labels)@, old(visited)@, i as int, c as int, st, old(seeds)@, idx as int, ord, tick),
        idx < old(seeds)@.len(),
    ensures
        grow_inv(lists(neighbors@), final(labels)@, final(visited)@, i as int, c as int, st, final(seeds)@, idx + 1,
            out@.0, out@.1),
        count_false(final(visited)@) < count_false(old(visited)@) || (count_false(final(visited)@) == count_false(
            old(visited)@) && final(seeds)@.len() == old(seeds)@.len()),
{
    let ghost nb = lists(neighbors@);
    let ghost mut ord: Seq<nat> = ord;
    let ghost mut tick: nat = tick;
    let q: usize = seeds[idx];
    let ghost l0 = labels@;
    let ghost v0 = visited@;
    let ghost s0 = seeds@;
    let ghost ord0 = ord;
    let ghost tick0: nat = tick;
    if !visited[q] {
        proof {
            lemma_count_false_set(visited@, q as int);
        }
        visited.set(q, true);
        if neighbors[q].len() >= MIN_PTS {
            add_neighbors(seeds, &neighbors[q], Ghost(q));
        }
    }
    if labels[q].is_none() {
        labels.set(q, Some(c));
        proof {
            ord = ord.update(q as int, tick);
            tick = tick + 1;
            assert(s0[idx as int] == q);
            if q != i {
                let w: int = choose|w: int| w != s0[idx as int] && #[trigger] reaches(nb, w, s0[idx as int] as int)
                    && l0[w] == Some(c);
                assert(ord[w] == ord0[w]);
                assert(ord0[w] < tick0);
                assert(reaches(nb, w, q as int) && labels@[w] == labels@[q as int] && ord[w] < ord[q as int]);
            }
            assert forall|p: int| 0 <= p < labels@.len() && p != q && #[trigger] labels@[p] is Some implies
                p == st[labels@[p].unwrap() as int] || (labels@[p] == Some(c) && p == i)
                || exists|r: int| r != p && #[trigger] reaches(nb, r, p) && labels@[r] == labels@[p] && ord[r] < ord[p] by {
                assert(l0[p] is Some);
                if !(p == st[labels@[p].unwrap() as int] || (labels@[p] == Some(c) && p == i)) {
                    let r: int = choose|r: int| r != p && #[trigger] reaches(nb, r, p) && l0[r] == l0[p] && ord0[r] < ord0[p];
                    assert(r != q);
                    assert(labels@[r] == labels@[p] && ord[r] < ord[p]);
                }
            }
        }
    }
    proof {
        assert(seeds@.len() >= s0.len());
        assert forall|t: int| 0 <= t < s0.len() implies #[trigger] seeds@[t] == s0[t] by {
            assert(seeds@.subrange(0, s0.len() as int)[t] == s0[t]);
        }
        assert forall|t: int| 0 <= t < seeds@.len() implies #[trigger] seeds@[t] < nb.len() by {
            if t < s0.len() {
                assert(seeds@[t] == s0[t]);
            } else {
                assert(neighbors@[q as int]@.contains(seeds@[t]));
                let j: int = choose|j: int| 0 <= j < nb[q as int].len() && nb[q as int][j] == seeds@[t];
                assert(nb[q as int][j] < nb.len());
            }
        }
        assert forall|t: int| 0 <= t < idx + 1 implies #[trigger] labels@[seeds@[t] as int] is Some by {
            assert(seeds@[t] == s0[t]);
            if t < idx {
                assert(l0[s0[t] as int] is Some);
            }
        }
        assert forall|t: int| 0 <= t < seeds@.len() implies (#[trigger] seeds@[t] == i
            || exists|w: int| w != seeds@[t] && #[trigger] reaches(nb, w, seeds@[t] as int) && labels@[w] == Some(c)) by {
            if t < s0.len() {
                assert(seeds@[t] == s0[t]);
                if s0[t] != i {
                    let w: int = choose|w: int| w != s0[t] && #[trigger] reaches(nb, w, s0[t] as int) && l0[w] == Some(c);
                    assert(labels@[w] == Some(c));
                }
            } else {
                assert(!v0[q as int]);
                assert(l0[q as int] is None);
                assert(labels@[q as int] == Some(c));
                assert(neighbors@[q as int]@.contains(seeds@[t]));
                assert(reaches(nb, q as int, seeds@[t] as int));
            }
        }
    }
    Ghost((ord, tick))
}

/// Starts cluster `c` at the unvisited core point `i` and grows it through
/// the neighbour lists of the core points it reaches.
fn grow(
    neighbors: &Vec<Vec<usize>>,
    labels: &mut Vec<Option<usize>>,
    visited: &mut Vec<bool>,
    i: usize,
    c: usize,
    Ghost(st): Ghost<Seq<usize>>,
    Ghost(ord): Ghost<Seq<nat>>,
    Ghost(tick): Ghost<nat>,
) -> (out: Ghost<(Seq<nat>, nat)>)
    requires
        lists_valid(lists(neighbors@)),
        scan_inv(lists(neighbors@), old(labels)@, old(visited)@, i as int, c as int, st, ord, tick),
        i < neighbors@.len(),
        !old(visited)@[i as int],
        is_core(lists(neighbors@), i as int),
    ensures
        scan_inv(lists(neighbors@), final(labels)@, final(visited)@, i + 1, c + 1, st.push(i), out@.0, out@.1),
{
    let ghost nb = lists(neighbors@);
    let n: usize = neighbors.len();
    assert(old(labels)@[i as int] is None);
    visited.set(i, true);
    labels.set(i, Some(c));
    let ghost mut ord: Seq<nat> = ord.update(i as int, tick);
    let ghost mut tick: nat = tick + 1;
    let mut seeds = copy_list(&neighbors[i]);
    assert(seeds@ == nb[i as int]);
    proof {
        assert forall|t: int| 0 <= t < seeds@.len() implies #[trigger] seeds@[t] < nb.len() by {
            assert(nb[i as int][t] < nb.len());
        }
        assert forall|t: int| 0 <= t < seeds@.len() implies (#[trigger] seeds@[t] == i
            || exists|w: int| w != seeds@[t] && #[trigger] reaches(nb, w, seeds@[t] as int) && labels@[w] == Some(c)) by {
            if seeds@[t] != i {
                assert(nb[i as int].contains(seeds@[t]));
                assert(reaches(nb, i as int, seeds@[t] as int));
            }
        }
        assert forall|p: int, x: int| 0 <= p < visited@.len() && visited@[p] && #[trigger] reaches(nb, p, x)
            && labels@[p] == Some(c) implies 0 <= x < labels@.len() && (labels@[x] is Some || seeds@.contains(x as usize)) by {
            if p != i {
                assert(old(labels)@[p] is Some);
            }
            assert(p == i);
        }
        assert forall|p: int, x: int| 0 <= p < visited@.len() && visited@[p] && #[trigger] reaches(nb, p, x)
            && labels@[p] is Some && labels@[p].unwrap() < c implies
            0 <= x < labels@.len() && labels@[x] is Some && labels@[x].unwrap() <= labels@[p].unwrap() by {
            assert(p != i);
            assert(old(visited)@[p]);
        }
        assert forall|p: int| 0 <= p < i && #[trigger] is_core(nb, p) implies
            labels@[p] is Some && labels@[p].unwrap() < c by {
            assert(old(visited)@[p]);
            assert(old(labels)@[p] is Some);
        }
    }
    let mut idx: usize = 0;
    while idx < seeds.len()
        invariant
            lists_valid(nb),
            nb == lists(neighbors@),
            n == nb.len(),
            grow_inv(nb, labels@, visited@, i as int, c as int, st, seeds@, idx as int, ord, tick),
        decreases count_false(visited@), seeds@.len() - idx,
    {
        let Ghost(next) = handle_seed(neighbors, labels, visited, &mut seeds, idx, i, c, Ghost(st), Ghost(ord), Ghost(tick));
        proof {
            ord = next.0;
            tick = next.1;
        }
        idx = idx + 1;
    }
    proof {
        assert forall|p: int, x: int| 0 <= p < visited@.len() && visited@[p] && #[trigger] reaches(nb, p, x) implies
            0 <= x < labels@.len() && labels@[x] is Some && labels@[p] is Some && labels@[x].unwrap() <= labels@[p].unwrap() by {
            assert(is_core(nb, p));
            assert(labels@[p] is Some);
            if labels@[p].unwrap() == c {
                assert(labels@[p] == Some(c));
                assert(0 <= x < labels@.len() && (labels@[x] is Some || seeds@.contains(x as usize)));
                if labels@[x] is None {
                    let t: int = choose|t: int| 0 <= t < seeds@.len() && seeds@[t] == x as usize;
                    assert(t < idx);
                    assert(labels@[seeds@[t] as int] is Some);
                    assert(seeds@[t] as int == x);
                }
                assert(labels@[x] is Some);
                assert(labels@[x].unwrap() <= c);
            } else {
                assert(labels@[p].unwrap() < c);
            }
        }
    }
    Ghost((ord, tick))
}

} // verus!

verus! {

/// Labels every point with its cluster, returning the labels, the number of
/// clusters and, as ghost, the seed point of each cluster.
fn label_points(neighbors: &Vec<Vec<usize>>) -> (res: (Vec<Option<usize>>, usize, Ghost<(Seq<usize>, Seq<nat>)>))
    requires
        lists_valid(lists(neighbors@)),
    ensures
        labels_ok(lists(neighbors@), res.0@, res.1 as nat, res.2@.0, res.2@.1),
{
    let ghost nb = lists(neighbors@);
    let n: usize = neighbors.len();
    let mut labels: Vec<Option<usize>> = Vec::new();
    let mut visited: Vec<bool> = Vec::new();
    let mut k: usize = 0;
    while k < n
        invariant
            k <= n,
            n == nb.len(),
            labels@ == Seq::new(k as nat, |p: int| None::<usize>),
            visited@ == Seq::new(k as nat, |p: int| false),
        decreases n - k,
    {
        labels.push(None);
        visited.push(false);
        k = k + 1;
    }
    let mut c: usize = 0;
    let ghost mut st: Seq<usize> = Seq::empty();
    let ghost mut ord: Seq<nat> = Seq::new(n as nat, |p: int| 0nat);
    let ghost mut tick: nat = 0;
    let mut i: usize = 0;
    while i < n
        invariant
            n == nb.len(),
            nb == lists(neighbors@),
            lists_valid(nb),
            scan_inv(nb, labels@, visited@, i as int, c as int, st, ord, tick),
        decreases n - i,
    {
        if !visited[i] {
            if neighbors[i].len() >= MIN_PTS {
                let Ghost(next) = grow(neighbors, &mut labels, &mut visited, i, c, Ghost(st), Ghost(ord), Ghost(tick));
                proof {
                    st = st.push(i);
                    ord = next.0;
                    tick = next.1;
                }
                c = c + 1;
            } else {
                let ghost l0 = labels@;
                assert(l0[i as int] is None);
                visited.set(i, true);
            }
        }
        i = i + 1;
    }
    proof {
        assert forall|p: int| 0 <= p < labels@.len() implies
            (#[trigger] labels@[p] is Some <==> (is_core(nb, p) || exists|q: int| #[trigger] reaches(nb, q, p))) by {
            if labels@[p] is Some {
                if p != st[labels@[p].unwrap() as int] {
                    let q: int = choose|q: int| q != p && #[trigger] reaches(nb, q, p) && labels@[q] == labels@[p];
                    assert(reaches(nb, q, p));
                }
            }
            if exists|q: int| #[trigger] reaches(nb, q, p) {
                let q: int = choose|q: int| #[trigger] reaches(nb, q, p);
                assert(visited@[q]);
            }
            if is_core(nb, p) {
                assert(visited@[p]);
            }
        }
        assert forall|p: int, q: int| 0 <= p < labels@.len() && #[trigger] reaches(nb, q, p) implies
            labels@[p] is Some && labels@[q] is Some && labels@[p].unwrap() <= labels@[q].unwrap() by {
            assert(visited@[q]);
        }
    }
    (labels, c, Ghost((st, ord)))
}

/// Collects, for each cluster in `0..count`, the indices of its points in increasing order.
fn group_labels(labels: &Vec<Option<usize>>, count: usize) -> (groups: Vec<Vec<usize>>)
    requires
        forall|p: int| 0 <= p < labels@.len() && #[trigger] labels@[p] is Some ==> labels@[p].unwrap() < count,
    ensures
        groups@.len() == count,
        forall|k: int, a: int, b: int| 0 <= k < count && 0 <= a < b < groups@[k]@.len() ==>
            #[trigger] groups@[k]@[a] < #[trigger] groups@[k]@[b],
        forall|k: int, a: int| 0 <= k < count && 0 <= a < groups@[k]@.len() ==>
            #[trigger] groups@[k]@[a] < labels@.len(),
        forall|k: int, p: int| 0 <= k < count && 0 <= p < labels@.len() ==>
            (#[trigger] groups@[k]@.contains(p as usize) <==> labels@[p] == Some(k as usize)),
{
    let mut groups: Vec<Vec<usize>> = Vec::new();
    let mut k: usize = 0;
    while k < count
        invariant
            k <= count,
            groups@.len() == k,
            forall|j: int| 0 <= j < k ==> (#[trigger] groups@[j])@.len() == 0,
        decreases count - k,
    {
        groups.push(Vec::new());
        k = k + 1;
    }
    let mut i: usize = 0;
    while i < labels.len()
        invariant
            i <= labels@.len(),
            groups@.len() == count,
            forall|p: int| 0 <= p < labels@.len() && #[trigger] labels@[p] is Some ==> labels@[p].unwrap() < count,
            forall|j: int, a: int, b: int| 0 <= j < count && 0 <= a < b < groups@[j]@.len() ==>
                #[trigger] groups@[j]@[a] < #[trigger] groups@[j]@[b],
            forall|j: int, a: int| 0 <= j < count && 0 <= a < groups@[j]@.len() ==> #[trigger] groups@[j]@[a] < i,
            forall|j: int, p: int| 0 <= j < count && 0 <= p < labels@.len() ==>
                (#[trigger] groups@[j]@.contains(p as usize) <==> (p < i && labels@[p] == Some(j as usize))),
        decreases labels@.len() - i,
    {
        if let Some(l) = labels[i] {
            let ghost g0 = groups@;
            groups[l].push(i);
            proof {
                assert forall|j: int| 0 <= j < count && j != l implies #[trigger] groups@[j] == g0[j] by {}
                assert(groups@[l as int]@ == g0[l as int]@.push(i));
                assert forall|j: int, p: int| 0 <= j < count && 0 <= p < labels@.len() implies
                    (#[trigger] groups@[j]@.contains(p as usize) <==> (p < i + 1 && labels@[p] == Some(j as usize))) by {
                    assert(g0[j]@.contains(p as usize) <==> (p < i && labels@[p] == Some(j as usize)));
                    if j != l {
                        assert(groups@[j] == g0[j]);
                    }
                    if j == l {
                        assert(groups@[j]@ == g0[j]@.push(i));
                        if p == i {
                            assert(groups@[j]@[g0[j]@.len() as int] == i);
                        } else if groups@[j]@.contains(p as usize) {
                            let t: int = choose|t: int| 0 <= t < groups@[j]@.len() && groups@[j]@[t] == p as usize;
                            assert(t < g0[j]@.len());
                            assert(g0[j]@[t] == p as usize);
                            assert(g0[j]@.contains(p as usize));
                        } else if p < i && labels@[p] == Some(j as usize) {
                            assert(g0[j]@.contains(p as usize));
                            let t: int = choose|t: int| 0 <= t < g0[j]@.len() && g0[j]@[t] == p as usize;
                            assert(groups@[j]@[t] == p as usize);
                        }
                    }
                }
            }
        }
        i = i + 1;
    }
    groups
}

} // verus!

verus! {

/// Whether point `p` belongs to group `k`.
pub open spec fn in_group(g: Seq<Seq<usize>>, k: int, p: int) -> bool {
    0 <= k < g.len() && 0 <= p <= usize::MAX && g[k].contains(p as usize)
}

/// Whether `p` is the seed of group `k`: its least core point.
pub open spec fn is_seed(nb: Seq<Seq<usize>>, g: Seq<Seq<usize>>, k: int, p: int) -> bool {
    &&& in_group(g, k, p)
    &&& is_core(nb, p)
    &&& forall|c: int| #[trigger] in_group(g, k, c) && is_core(nb, c) ==> p <= c
}

/// `path` runs through points of group `k`, each point but the last a core point reaching the next.
pub open spec fn is_chain(nb: Seq<Seq<usize>>, g: Seq<Seq<usize>>, k: int, path: Seq<int>) -> bool {
    &&& path.len() > 0
    &&& forall|a: int| 0 <= a < path.len() ==> #[trigger] in_group(g, k, path[a])
    &&& forall|a: int| 0 <= a < path.len() - 1 ==> #[trigger] reaches(nb, path[a], path[a + 1])
}

/// Each group lists point indices in strictly increasing order.
#[verifier::opaque]
pub open spec fn groups_increasing(nb: Seq<Seq<usize>>, g: Seq<Seq<usize>>) -> bool {
    &&& forall|k: int, a: int, b: int| 0 <= k < g.len() && 0 <= a < b < g[k].len() ==>
            #[trigger] g[k][a] < #[trigger] g[k][b]
    &&& forall|k: int, a: int| 0 <= k < g.len() && 0 <= a < g[k].len() ==> #[trigger] g[k][a] < nb.len()
}

/// No point is in two groups.
#[verifier::opaque]
pub open spec fn groups_disjoint(g: Seq<Seq<usize>>) -> bool {
    forall|p: int, k1: int, k2: int| #[trigger] in_group(g, k1, p) && #[trigger] in_group(g, k2, p) ==> k1 == k2
}

/// A point is clustered exactly when it is a core point or a core point reaches it.
#[verifier::opaque]
pub open spec fn groups_cover(nb: Seq<Seq<usize>>, g: Seq<Seq<usize>>) -> bool {
    forall|p: int| 0 <= p < nb.len() ==>
        ((exists|k: int| #[trigger] in_group(g, k, p)) <==> (is_core(nb, p) || exists|q: int| #[trigger] reaches(nb, q, p)))
}

/// A point is in the first group that has a core point reaching it.
#[verifier::opaque]
pub open spec fn groups_first_reach(nb: Seq<Seq<usize>>, g: Seq<Seq<usize>>) -> bool {
    forall|p: int, q: int, k: int, j: int| #[trigger] in_group(g, k, p) && #[trigger] in_group(g, j, q) && reaches(nb, q, p) ==> k <= j
}

/// Every point is its group's seed or is reached by another core point of its group.
#[verifier::opaque]
pub open spec fn groups_supported(nb: Seq<Seq<usize>>, g: Seq<Seq<usize>>) -> bool {
    forall|p: int, k: int| #[trigger] in_group(g, k, p) ==>
        is_seed(nb, g, k, p) || exists|q: int| q != p && #[trigger] in_group(g, k, q) && reaches(nb, q, p)
}

/// Every point is reached from its group's seed through a chain within the group.
#[verifier::opaque]
pub open spec fn groups_chained(nb: Seq<Seq<usize>>, g: Seq<Seq<usize>>) -> bool {
    forall|p: int, k: int| #[trigger] in_group(g, k, p) ==>
        exists|path: Seq<int>| #[trigger] is_chain(nb, g, k, path) && is_seed(nb, g, k, path[0]) && path.last() == p
}

/// Every group is non-empty and has a seed, and the seeds increase with the group index.
#[verifier::opaque]
pub open spec fn groups_seeded(nb: Seq<Seq<usize>>, g: Seq<Seq<usize>>) -> bool {
    &&& forall|k: int| #![trigger g[k]] 0 <= k < g.len() ==> g[k].len() > 0 && exists|p: int| #[trigger] is_seed(nb, g, k, p)
    &&& forall|k1: int, k2: int, p1: int, p2: int| 0 <= k1 < k2 && #[trigger] is_seed(nb, g, k1, p1) && #[trigger] is_seed(nb, g, k2, p2) ==> p1 < p2
}

/// The groups `g` are the DBSCAN clustering of the points with neighbour lists `nb`.
pub open spec fn is_clustering(nb: Seq<Seq<usize>>, g: Seq<Seq<usize>>) -> bool {
    &&& groups_increasing(nb, g)
    &&& groups_disjoint(g)
    &&& groups_cover(nb, g)
    &&& groups_first_reach(nb, g)
    &&& groups_supported(nb, g)
    &&& groups_chained(nb, g)
    &&& groups_seeded(nb, g)
}

/// Every labelled point is reached from the seed of its cluster through a chain of the cluster.
proof fn lemma_chain(
    nb: Seq<Seq<usize>>,
    g: Seq<Seq<usize>>,
    l: Seq<Option<usize>>,
    count: nat,
    st: Seq<usize>,
    ord: Seq<nat>,
    p: int,
)
    requires
        labels_ok(nb, l, count, st, ord),
        g.len() == count,
        forall|k: int, q: int| #[trigger] in_group(g, k, q) <==> (0 <= q < l.len() && 0 <= k < count && l[q] == Some(k as usize)),
        0 <= p < l.len(),
        l[p] is Some,
    ensures
        exists|path: Seq<int>| #[trigger] is_chain(nb, g, l[p].unwrap() as int, path) && path[0] == st[l[p].unwrap() as int] as int
            && path.last() == p,
    decreases ord[p],
{
    let k: int = l[p].unwrap() as int;
    if p == st[k] as int {
        let path = seq![p];
        assert(in_group(g, k, p));
        assert(is_chain(nb, g, k, path));
    } else {
        let q: int = choose|q: int| q != p && #[trigger] reaches(nb, q, p) && l[q] == l[p] && ord[q] < ord[p];
        lemma_chain(nb, g, l, count, st, ord, q);
        let pq = choose|path: Seq<int>| #[trigger] is_chain(nb, g, k, path) && path[0] == st[k] as int && path.last() == q;
        let path = pq.push(p);
        assert(in_group(g, k, p));
        assert forall|a: int| 0 <= a < path.len() implies #[trigger] in_group(g, k, path[a]) by {
            if a < pq.len() {
                assert(path[a] == pq[a]);
            }
        }
        assert forall|a: int| 0 <= a < path.len() - 1 implies #[trigger] reaches(nb, path[a], path[a + 1]) by {
            if a < pq.len() - 1 {
                assert(path[a] == pq[a] && path[a + 1] == pq[a + 1]);
            } else {
                assert(path[a] == q && path[a + 1] == p);
            }
        }
        assert(is_chain(nb, g, k, path));
    }
}

/// Groups the points whose neighbour lists are `neighbors` into clusters, cluster
/// by cluster in the order in which they were started, leaving out the points
/// that no cluster reaches.
fn cluster_all(neighbors: &Vec<Vec<usize>>) -> (groups: Vec<Vec<usize>>)
    requires
        lists_valid(lists(neighbors@)),
    ensures
        is_clustering(lists(neighbors@), lists(groups@)),
{
    let ghost nb = lists(neighbors@);
    let (labels, count, Ghost(marks)): (Vec<Option<usize>>, usize, Ghost<(Seq<usize>, Seq<nat>)>) = label_points(
        neighbors,
    );
    let ghost st = marks.0;
    let ghost ord = marks.1;
    let groups = group_labels(&labels, count);
    proof {
        reveal(groups_increasing);
        reveal(groups_disjoint);
        reveal(groups_cover);
        reveal(groups_first_reach);
        reveal(groups_supported);
        reveal(groups_chained);
        reveal(groups_seeded);
        let g = lists(groups@);
        let l = labels@;
        assert forall|k: int, p: int| #[trigger] in_group(g, k, p) <==> (0 <= p < l.len() && 0 <= k < count && l[p] == Some(k as usize)) by {
            if in_group(g, k, p) {
                let t: int = choose|t: int| 0 <= t < g[k].len() && g[k][t] == p as usize;
                assert(groups@[k]@[t] < l.len());
                assert(groups@[k]@.contains(p as usize));
            }
            if 0 <= p < l.len() && 0 <= k < count && l[p] == Some(k as usize) {
                assert(groups@[k]@.contains(p as usize));
            }
        }
        assert forall|k: int| 0 <= k < count implies #[trigger] is_seed(nb, g, k, st[k] as int) by {
            let p: int = st[k] as int;
            assert(in_group(g, k, p));
            assert forall|c: int| #[trigger] in_group(g, k, c) && is_core(nb, c) implies p <= c by {
                assert(l[c] == Some(k as usize));
            }
        }
        assert forall|p: int, k: int| #[trigger] in_group(g, k, p) implies
            exists|path: Seq<int>| #[trigger] is_chain(nb, g, k, path) && is_seed(nb, g, k, path[0]) && path.last() == p by {
            assert(l[p] == Some(k as usize));
            lemma_chain(nb, g, l, count as nat, st, ord, p);
            let path = choose|path: Seq<int>| #[trigger] is_chain(nb, g, k, path) && path[0] == st[k] as int && path.last() == p;
            assert(is_seed(nb, g, k, st[k] as int));
        }
        assert forall|k: int, p: int| #[trigger] is_seed(nb, g, k, p) implies p == st[k] as int by {
            assert(in_group(g, k, st[k] as int));
            assert(l[p] == Some(k as usize));
        }
        assert forall|k: int| #![trigger g[k]] 0 <= k < g.len() implies g[k].len() > 0 && exists|p: int| #[trigger] is_seed(nb, g, k, p) by {
            let p: int = st[k] as int;
            assert(in_group(g, k, p));
            assert forall|c: int| #[trigger] in_group(g, k, c) && is_core(nb, c) implies p <= c by {
                assert(l[c] == Some(k as usize));
            }
            assert(is_seed(nb, g, k, p));
        }
        assert forall|p: int, k: int| #[trigger] in_group(g, k, p) implies
            is_seed(nb, g, k, p) || exists|q: int| q != p && #[trigger] in_group(g, k, q) && reaches(nb, q, p) by {
            assert(l[p] == Some(k as usize));
            if p != st[k] as int {
                let q: int = choose|q: int| q != p && #[trigger] reaches(nb, q, p) && l[q] == l[p];
                assert(in_group(g, k, q));
            } else {
                assert(is_seed(nb, g, k, p));
            }
        }
        assert forall|p: int| 0 <= p < nb.len() implies
            ((exists|k: int| #[trigger] in_group(g, k, p)) <==> (is_core(nb, p) || exists|q: int| #[trigger] reaches(nb, q, p))) by {
            if l[p] is Some {
                assert(in_group(g, l[p].unwrap() as int, p));
            }
        }
        assert forall|p: int, q: int, k: int, j: int| #[trigger] in_group(g, k, p) && #[trigger] in_group(g, j, q) && reaches(nb, q, p) implies k <= j by {
            assert(l[p] == Some(k as usize));
            assert(l[q] == Some(j as usize));
        }
        assert forall|k: int, a: int, b: int| 0 <= k < g.len() && 0 <= a < b < g[k].len() implies
            #[trigger] g[k][a] < #[trigger] g[k][b] by {
            assert(groups@[k]@[a] < groups@[k]@[b]);
        }
        assert forall|p: int, k1: int, k2: int| #[trigger] in_group(g, k1, p) && #[trigger] in_group(g, k2, p) implies k1 == k2 by {
            assert(l[p] == Some(k1 as usize));
            assert(l[p] == Some(k2 as usize));
        }
        assert forall|k1: int, k2: int, p1: int, p2: int| 0 <= k1 < k2 && #[trigger] is_seed(nb, g, k1, p1)
            && #[trigger] is_seed(nb, g, k2, p2) implies p1 < p2 by {
            assert(p1 == st[k1] as int);
            assert(p2 == st[k2] as int);
            assert(k2 < count);
            assert(st[k1] < st[k2]);
        }
        assert forall|k: int, a: int| 0 <= k < g.len() && 0 <= a < g[k].len() implies #[trigger] g[k][a] < nb.len() by {
            assert(groups@[k]@[a] < l.len());
        }
    }
    groups
}

} // verus!

verus! {

/// Whether the neighbour relation is symmetric, as that of a distance ball is.
pub open spec fn lists_symmetric(nb: Seq<Seq<usize>>) -> bool {
    forall|p: int, q: int| 0 <= p < nb.len() && 0 <= q < nb.len() ==>
        (#[trigger] nb[p].contains(q as usize) <==> #[trigger] nb[q].contains(p as usize))
}

/// With symmetric neighbour lists, two core points of which one lists the
/// other end up in the same group.
pub proof fn lemma_core_neighbours_together(nb: Seq<Seq<usize>>, g: Seq<Seq<usize>>, p: int, q: int)
    requires
        is_clustering(nb, g),
        lists_symmetric(nb),
        is_core(nb, p),
        reaches(nb, q, p),
    ensures
        forall|k: int| #[trigger] in_group(g, k, p) <==> in_group(g, k, q),
{
    reveal(groups_cover);
    reveal(groups_first_reach);
    assert(nb[q].contains(p as usize));
    assert(nb[p].contains(q as usize));
    assert(reaches(nb, p, q));
    assert((exists|k: int| #[trigger] in_group(g, k, p)));
    assert((exists|k: int| #[trigger] in_group(g, k, q)));
    let kp: int = choose|k: int| #[trigger] in_group(g, k, p);
    let kq: int = choose|k: int| #[trigger] in_group(g, k, q);
    assert(kp <= kq);
    assert(kq <= kp);
}

} // verus!

verus! {

/// The two groupings agree on the groups before `k`.
spec fn agree_before(g1: Seq<Seq<usize>>, g2: Seq<Seq<usize>>, k: int) -> bool {
    forall|j: int, p: int|
        #![trigger in_group(g1, j, p)]
        #![trigger in_group(g2, j, p)]
        0 <= j < k ==> (in_group(g1, j, p) <==> in_group(g2, j, p))
}

/// A chain of a group of `g1` that starts in the same group of `g2` stays in it.
proof fn lemma_chain_transfer(nb: Seq<Seq<usize>>, g1: Seq<Seq<usize>>, g2: Seq<Seq<usize>>, k: int, path: Seq<int>)
    requires
        is_clustering(nb, g1),
        is_clustering(nb, g2),
        is_chain(nb, g1, k, path),
        in_group(g2, k, path[0]),
        agree_before(g1, g2, k),
    ensures
        forall|a: int| 0 <= a < path.len() ==> #[trigger] in_group(g2, k, path[a]),
    decreases path.len(),
{
    reveal(groups_cover);
    reveal(groups_first_reach);
    reveal(groups_disjoint);
    if path.len() > 1 {
        let prefix = path.drop_last();
        assert forall|a: int| 0 <= a < prefix.len() implies #[trigger] in_group(g1, k, prefix[a]) by {
            assert(in_group(g1, k, path[a]));
        }
        assert forall|a: int| 0 <= a < prefix.len() - 1 implies #[trigger] reaches(nb, prefix[a], prefix[a + 1]) by {
            assert(reaches(nb, path[a], path[a + 1]));
        }
        lemma_chain_transfer(nb, g1, g2, k, prefix);
        let n = path.len() - 1;
        let x = path[n - 1];
        let y = path[n];
        assert(in_group(g2, k, prefix[n - 1]));
        assert(reaches(nb, path[n - 1], path[n - 1 + 1]));
        assert(reaches(nb, x, y));
        assert(in_group(g1, k, y));
        assert(exists|j: int| #[trigger] in_group(g2, j, y));
        let j = choose|j: int| #[trigger] in_group(g2, j, y);
        assert(j <= k);
        if j < k {
            assert(in_group(g1, j, y));
        }
        assert forall|a: int| 0 <= a < path.len() implies #[trigger] in_group(g2, k, path[a]) by {
            if a < n {
                assert(in_group(g2, k, prefix[a]));
            }
        }
    }
}

/// The seed of group `k` of `g1` lies in group `k` or a later one of `g2`.
proof fn lemma_seed_not_earlier(nb: Seq<Seq<usize>>, g1: Seq<Seq<usize>>, g2: Seq<Seq<usize>>, k: int, s: int) -> (m: int)
    requires
        is_clustering(nb, g1),
        is_clustering(nb, g2),
        agree_before(g1, g2, k),
        is_seed(nb, g1, k, s),
    ensures
        m >= k,
        in_group(g2, m, s),
{
    reveal(groups_cover);
    reveal(groups_disjoint);
    assert(exists|j: int| #[trigger] in_group(g2, j, s));
    let m = choose|j: int| #[trigger] in_group(g2, j, s);
    if m < k {
        assert(in_group(g1, m, s));
    }
    m
}

/// The seed of a group is at least the seed of any earlier group, and at most any core point of its group.
proof fn lemma_seed_bounds(nb: Seq<Seq<usize>>, g: Seq<Seq<usize>>, k: int, m: int, s: int, c: int)
    requires
        is_clustering(nb, g),
        is_seed(nb, g, k, s),
        in_group(g, m, c),
        is_core(nb, c),
    ensures
        m == k ==> s <= c,
        m > k ==> s < c,
{
    reveal(groups_seeded);
    if m > k {
        assert(g[m].len() > 0);
        let t = choose|p: int| #[trigger] is_seed(nb, g, m, p);
        assert(s < t);
        assert(t <= c);
    }
}

/// Groups agreeing before `k` have the same seed at `k`.
proof fn lemma_same_seed(nb: Seq<Seq<usize>>, g1: Seq<Seq<usize>>, g2: Seq<Seq<usize>>, k: int, s1: int, s2: int)
    requires
        is_clustering(nb, g1),
        is_clustering(nb, g2),
        agree_before(g1, g2, k),
        is_seed(nb, g1, k, s1),
        is_seed(nb, g2, k, s2),
    ensures
        s1 == s2,
{
    assert(agree_before(g2, g1, k));
    let m = lemma_seed_not_earlier(nb, g1, g2, k, s1);
    let m2 = lemma_seed_not_earlier(nb, g2, g1, k, s2);
    lemma_seed_bounds(nb, g2, k, m, s2, s1);
    lemma_seed_bounds(nb, g1, k, m2, s1, s2);
}

/// Two clusterings of the same neighbour lists agree on every group before `k`.
proof fn lemma_agree_upto(nb: Seq<Seq<usize>>, g1: Seq<Seq<usize>>, g2: Seq<Seq<usize>>, k: int)
    requires
        is_clustering(nb, g1),
        is_clustering(nb, g2),
        0 <= k <= g1.len(),
        k <= g2.len(),
    ensures
        agree_before(g1, g2, k),
    decreases k,
{
    reveal(groups_seeded);
    reveal(groups_chained);
    if k > 0 {
        let j = k - 1;
        lemma_agree_upto(nb, g1, g2, j);
        assert(g1[j].len() > 0);
        assert(g2[j].len() > 0);
        let s1 = choose|p: int| #[trigger] is_seed(nb, g1, j, p);
        let s2 = choose|p: int| #[trigger] is_seed(nb, g2, j, p);
        lemma_same_seed(nb, g1, g2, j, s1, s2);
        assert forall|p: int| #[trigger] in_group(g1, j, p) implies in_group(g2, j, p) by {
            let path = choose|path: Seq<int>| #[trigger] is_chain(nb, g1, j, path) && is_seed(nb, g1, j, path[0]) && path.last() == p;
            lemma_same_seed(nb, g1, g2, j, path[0], s2);
            lemma_chain_transfer(nb, g1, g2, j, path);
            assert(in_group(g2, j, path[path.len() - 1]));
        }
        assert forall|p: int| #[trigger] in_group(g2, j, p) implies in_group(g1, j, p) by {
            let path = choose|path: Seq<int>| #[trigger] is_chain(nb, g2, j, path) && is_seed(nb, g2, j, path[0]) && path.last() == p;
            lemma_same_seed(nb, g1, g2, j, s1, path[0]);
            assert forall|jj: int, q: int|
                #![trigger in_group(g2, jj, q)]
                #![trigger in_group(g1, jj, q)]
                0 <= jj < j implies (in_group(g2, jj, q) <==> in_group(g1, jj, q)) by {}
            lemma_chain_transfer(nb, g2, g1, j, path);
            assert(in_group(g1, j, path[path.len() - 1]));
        }
    }
}

/// Strictly increasing sequences with the same elements are equal.
proof fn lemma_increasing_unique(a: Seq<usize>, b: Seq<usize>)
    requires
        forall|i: int, j: int| 0 <= i < j < a.len() ==> #[trigger] a[i] < #[trigger] a[j],
        forall|i: int, j: int| 0 <= i < j < b.len() ==> #[trigger] b[i] < #[trigger] b[j],
        forall|x: usize| #![trigger a.contains(x)] #![trigger b.contains(x)] a.contains(x) <==> b.contains(x),
    ensures
        a == b,
    decreases a.len() + b.len(),
{
    if a.len() == 0 {
        if b.len() > 0 {
            assert(b.contains(b[0]));
            assert(a.contains(b[0]));
        }
        assert(b =~= a);
    } else if b.len() == 0 {
        assert(a.contains(a[0]));
        assert(b.contains(a[0]));
    } else {
        assert(a.contains(a[0]));
        assert(b.contains(b[0]));
        assert(b.contains(a[0]));
        assert(a.contains(b[0]));
        let i = choose|i: int| 0 <= i < b.len() && b[i] == a[0];
        let j = choose|j: int| 0 <= j < a.len() && a[j] == b[0];
        if i > 0 {
            assert(b[0] < b[i]);
        }
        if j > 0 {
            assert(a[0] < a[j]);
        }
        assert(a[0] == b[0]);
        let a1 = a.drop_first();
        let b1 = b.drop_first();
        assert forall|x: usize| #![trigger a1.contains(x)] #![trigger b1.contains(x)] a1.contains(x) <==> b1.contains(x) by {
            if a1.contains(x) {
                let t = choose|t: int| 0 <= t < a1.len() && a1[t] == x;
                assert(a[t + 1] == x && a[0] < a[t + 1]);
                assert(b.contains(x));
                let u = choose|u: int| 0 <= u < b.len() && b[u] == x;
                assert(u != 0);
                assert(b1[u - 1] == x);
            }
            if b1.contains(x) {
                let t = choose|t: int| 0 <= t < b1.len() && b1[t] == x;
                assert(b[t + 1] == x && b[0] < b[t + 1]);
                assert(a.contains(x));
                let u = choose|u: int| 0 <= u < a.len() && a[u] == x;
                assert(u != 0);
                assert(a1[u - 1] == x);
            }
        }
        lemma_increasing_unique(a1, b1);
        assert forall|t: int| 0 <= t < a.len() implies a[t] == b[t] by {
            if t > 0 {
                assert(a[t] == a1[t - 1]);
                assert(b[t] == b1[t - 1]);
            }
        }
        assert(a =~= b);
    }
}

/// The clustering of given neighbour lists is unique: the contract of `dbscan`
/// determines its result.
pub proof fn lemma_clustering_unique(nb: Seq<Seq<usize>>, g1: Seq<Seq<usize>>, g2: Seq<Seq<usize>>)
    requires
        is_clustering(nb, g1),
        is_clustering(nb, g2),
    ensures
        g1 == g2,
{
    reveal(groups_increasing);
    if g1.len() < g2.len() {
        lemma_agree_upto(nb, g1, g2, g1.len() as int);
        lemma_missing_group(nb, g1, g2);
    } else if g2.len() < g1.len() {
        lemma_agree_upto(nb, g2, g1, g2.len() as int);
        lemma_missing_group(nb, g2, g1);
    }
    let k = g1.len() as int;
    lemma_agree_upto(nb, g1, g2, k);
    assert forall|j: int| 0 <= j < k implies #[trigger] g1[j] == g2[j] by {
        assert forall|x: usize| #![trigger g1[j].contains(x)] #![trigger g2[j].contains(x)] g1[j].contains(x) <==> g2[j].contains(x) by {
            assert(in_group(g1, j, x as int) <==> in_group(g2, j, x as int));
        }
        lemma_increasing_unique(g1[j], g2[j]);
    }
    assert(g1 =~= g2);
}

/// A clustering of given lists that agrees with another one on all its groups has as many groups.
proof fn lemma_missing_group(nb: Seq<Seq<usize>>, g1: Seq<Seq<usize>>, g2: Seq<Seq<usize>>)
    requires
        is_clustering(nb, g1),
        is_clustering(nb, g2),
        g1.len() <= g2.len(),
        agree_before(g1, g2, g1.len() as int),
    ensures
        g1.len() == g2.len(),
{
    reveal(groups_seeded);
    reveal(groups_cover);
    reveal(groups_disjoint);
    let k = g1.len() as int;
    if k < g2.len() {
        assert(g2[k].len() > 0);
        let s = choose|p: int| #[trigger] is_seed(nb, g2, k, p);
        assert(exists|j: int| #[trigger] in_group(g1, j, s));
        let j = choose|j: int| #[trigger] in_group(g1, j, s);
        assert(in_group(g2, j, s));
    }
}

} // verus!

verus! {

/// The groups of `g` that hold at least `MIN_PTS` points, in order; smaller groups are noise.
pub open spec fn dense_groups(g: Seq<Seq<usize>>) -> Seq<Seq<usize>>
    decreases g.len(),
{
    if g.len() == 0 {
        Seq::empty()
    } else {
        dense_groups(g.drop_last()) + if g.last().len() >= MIN_PTS {
            seq![g.last()]
        } else {
            Seq::<Seq<usize>>::empty()
        }
    }
}

/// The clustering of the neighbour lists `nb` (unique by `lemma_clustering_unique`).
pub open spec fn clustering_of(nb: Seq<Seq<usize>>) -> Seq<Seq<usize>> {
    choose|g: Seq<Seq<usize>>| is_clustering(nb, g)
}

/// Every group kept by `dense_groups` holds at least `MIN_PTS` points, and a
/// point is in a kept group exactly when its group in `g` is large enough.
pub proof fn lemma_dense_groups(g: Seq<Seq<usize>>)
    ensures
        forall|j: int| 0 <= j < dense_groups(g).len() ==> #[trigger] dense_groups(g)[j].len() >= MIN_PTS,
        forall|j: int| #![trigger dense_groups(g)[j]] 0 <= j < dense_groups(g).len() ==> exists|k: int| 0 <= k < g.len() && #[trigger] g[k] == dense_groups(g)[j],
        forall|k: int| 0 <= k < g.len() && #[trigger] g[k].len() >= MIN_PTS ==> dense_groups(g).contains(g[k]),
    decreases g.len(),
{
    if g.len() > 0 {
        let h = g.drop_last();
        lemma_dense_groups(h);
        let tail = if g.last().len() >= MIN_PTS { seq![g.last()] } else { Seq::<Seq<usize>>::empty() };
        assert(dense_groups(g) == dense_groups(h) + tail);
        assert forall|j: int| #![trigger dense_groups(g)[j]] 0 <= j < dense_groups(g).len() implies exists|k: int| 0 <= k < g.len() && #[trigger] g[k] == dense_groups(g)[j] by {
            if j < dense_groups(h).len() {
                assert(dense_groups(g)[j] == dense_groups(h)[j]);
                let k = choose|k: int| 0 <= k < h.len() && #[trigger] h[k] == dense_groups(h)[j];
                assert(g[k] == h[k]);
            } else {
                assert(g[g.len() - 1] == dense_groups(g)[j]);
            }
        }
        assert forall|j: int| 0 <= j < dense_groups(g).len() implies #[trigger] dense_groups(g)[j].len() >= MIN_PTS by {
            if j < dense_groups(h).len() {
                assert(dense_groups(g)[j] == dense_groups(h)[j]);
            }
        }
        assert forall|k: int| 0 <= k < g.len() && #[trigger] g[k].len() >= MIN_PTS implies dense_groups(g).contains(g[k]) by {
            if k < h.len() {
                assert(h[k] == g[k]);
                let j = choose|j: int| 0 <= j < dense_groups(h).len() && dense_groups(h)[j] == h[k];
                assert(dense_groups(g)[j] == g[k]);
            } else {
                assert(dense_groups(g)[dense_groups(h).len() as int] == g[k]);
            }
        }
    }
}

/// Clusters the points whose neighbour lists are `neighbors` with DBSCAN and
/// returns the clusters of at least `MIN_PTS` points, each as its increasing
/// point indices, in the order in which they were started. Points outside
/// these clusters are noise.
pub fn dbscan(neighbors: &Vec<Vec<usize>>) -> (groups: Vec<Vec<usize>>)
    requires
        lists_valid(lists(neighbors@)),
    ensures
        is_clustering(lists(neighbors@), clustering_of(lists(neighbors@))),
        lists(groups@) == dense_groups(clustering_of(lists(neighbors@))),
        forall|k: int| 0 <= k < groups@.len() ==> #[trigger] groups@[k]@.len() >= MIN_PTS,
{
    let ghost nb = lists(neighbors@);
    let all = cluster_all(neighbors);
    let ghost g = lists(all@);
    proof {
        lemma_clustering_unique(nb, g, clustering_of(nb));
    }
    let mut groups: Vec<Vec<usize>> = Vec::new();
    let mut i: usize = 0;
    while i < all.len()
        invariant
            i <= all@.len(),
            g == lists(all@),
            lists(groups@) == dense_groups(g.take(i as int)),
        decreases all@.len() - i,
    {
        assert(g.take(i as int + 1).drop_last() =~= g.take(i as int));
        if all[i].len() >= MIN_PTS {
            let grp = copy_list(&all[i]);
            groups.push(grp);
            assert(lists(groups@) =~= dense_groups(g.take(i as int)) + seq![g[i as int]]);
        } else {
            assert(dense_groups(g.take(i as int)) + Seq::<Seq<usize>>::empty() =~= dense_groups(g.take(i as int)));
        }
        i = i + 1;
    }
    assert(g.take(all@.len() as int) =~= g);
    proof {
        lemma_dense_groups(g);
        assert forall|k: int| 0 <= k < groups@.len() implies #[trigger] groups@[k]@.len() >= MIN_PTS by {
            assert(lists(groups@)[k] == groups@[k]@);
        }
    }
    groups
}

} // verus!
