//! All-pairs shortest paths on a small directed weighted graph, by
//! Floyd–Warshall and by array-based Dijkstra from each source.

use vstd::prelude::*;

verus! {

/// Number of vertices.
pub const N: usize = 6;

/// "No path" sentinel, small enough that `INF + INF` never overflows `i64`.
pub const INF: i64 = 0x100_0000_0000;

/// A weight matrix: every entry is a weight in `[0, INF]`, `INF` meaning
/// that there is no edge. This is the domain both algorithms are written
/// for: `INF` is chosen so that adding two entries never overflows `i64`,
/// which larger entries would break; Dijkstra's method is only correct for
/// weights that are not negative; and the in-place Floyd–Warshall round
/// equals its recurrence only when no entry is negative.
pub open spec fn valid_weights(w: [[i64; N]; N]) -> bool {
    forall|i: int, j: int| 0 <= i < N && 0 <= j < N ==> 0 <= #[trigger] w[i][j] <= INF
}

/// The edges of the fixed example graph, as `(from, to, weight)`.
pub open spec fn edge_weight(u: int, v: int) -> Option<int> {
    if u == 0 && v == 1 { Some(7) }
    else if u == 0 && v == 2 { Some(9) }
    else if u == 0 && v == 5 { Some(14) }
    else if u == 1 && v == 2 { Some(10) }
    else if u == 1 && v == 3 { Some(15) }
    else if u == 2 && v == 3 { Some(11) }
    else if u == 2 && v == 5 { Some(2) }
    else if u == 3 && v == 4 { Some(6) }
    else if u == 4 && v == 5 { Some(9) }
    else if u == 5 && v == 4 { Some(9) }
    else { None }
}

/// Write `value` at `w[i][j]`.
fn set_entry(w: &mut [[i64; N]; N], i: usize, j: usize, value: i64)
    requires
        i < N,
        j < N,
    ensures
        forall|a: int, b: int|
            0 <= a < N && 0 <= b < N ==> #[trigger] final(w)[a][b] == if a == i && b == j {
                value
            } else {
                old(w)[a][b]
            },
{
    let mut row = w[i];
    row[j] = value;
    w[i] = row;
}

/// The directed weighted adjacency matrix of the example graph: diagonal 0,
/// the listed edges with their weights, `INF` everywhere else.
pub fn graph() -> (w: [[i64; N]; N])
    ensures
        forall|u: int, v: int| 0 <= u < N && 0 <= v < N ==> #[trigger] w[u][v] == (
            if u == v {
                0
            } else {
                match edge_weight(u, v) {
                    Some(c) => c,
                    None => INF as int,
                }
            }),
{
    let mut w = [[INF; N]; N];
    let mut i: usize = 0;
    while i < N
        invariant
            i <= N,
            forall|u: int, v: int| 0 <= u < N && 0 <= v < N ==> #[trigger] w[u][v] == (
                if u == v && u < i { 0 } else { INF as int }),
        decreases N - i,
    {
        set_entry(&mut w, i, i, 0);
        i = i + 1;
    }
    set_entry(&mut w, 0, 1, 7);
    set_entry(&mut w, 0, 2, 9);
    set_entry(&mut w, 0, 5, 14);
    set_entry(&mut w, 1, 2, 10);
    set_entry(&mut w, 1, 3, 15);
    set_entry(&mut w, 2, 3, 11);
    set_entry(&mut w, 2, 5, 2);
    set_entry(&mut w, 3, 4, 6);
    set_entry(&mut w, 4, 5, 9);
    set_entry(&mut w, 5, 4, 9);
    w
}


/// The Floyd–Warshall recurrence: the distance from `i` to `j` allowing only
/// vertices below `k` as intermediate stops.
pub open spec fn fw(w: [[i64; N]; N], k: nat, i: int, j: int) -> int
    decreases k,
{
    if k == 0 {
        w[i][j] as int
    } else {
        let km = (k - 1) as nat;
        let direct = fw(w, km, i, j);
        let through = fw(w, km, i, km as int) + fw(w, km, km as int, j);
        if through < direct {
            through
        } else {
            direct
        }
    }
}

proof fn lemma_fw_bounds(w: [[i64; N]; N], k: nat, i: int, j: int)
    requires
        valid_weights(w),
        0 <= i < N,
        0 <= j < N,
        k <= N,
    ensures
        0 <= fw(w, k, i, j) <= INF,
    decreases k,
{
    if k > 0 {
        let km = (k - 1) as nat;
        lemma_fw_bounds(w, km, i, j);
        lemma_fw_bounds(w, km, i, km as int);
        lemma_fw_bounds(w, km, km as int, j);
    }
}

/// Floyd–Warshall over a weight matrix: entry `(i, j)` of the result is the
/// recurrence [`fw`] after all `N` vertices are allowed as stops.
pub fn floyd_warshall(dist: [[i64; N]; N]) -> (r: [[i64; N]; N])
    requires
        valid_weights(dist),
    ensures
        forall|i: int, j: int| 0 <= i < N && 0 <= j < N ==> #[trigger] r[i][j] == fw(dist, N as nat, i, j),
{
    let w = dist;
    let mut dist = dist;
    let mut k: usize = 0;
    while k < N
        invariant
            k <= N,
            valid_weights(w),
            forall|i: int, j: int| 0 <= i < N && 0 <= j < N ==> #[trigger] dist[i][j] == fw(w, k as nat, i, j),
        decreases N - k,
    {
        proof {
            lemma_fw_bounds(w, k as nat, k as int, k as int);
        }
        let mut i: usize = 0;
        while i < N
            invariant
                k < N,
                i <= N,
                valid_weights(w),
                0 <= fw(w, k as nat, k as int, k as int),
                forall|a: int, b: int| 0 <= a < N && 0 <= b < N ==> #[trigger] dist[a][b] == (
                    if a < i { fw(w, k as nat + 1, a, b) } else { fw(w, k as nat, a, b) }),
            decreases N - i,
        {
            let mut j: usize = 0;
            while j < N
                invariant
                    k < N,
                    i < N,
                    j <= N,
                    valid_weights(w),
                    0 <= fw(w, k as nat, k as int, k as int),
                    forall|a: int, b: int| 0 <= a < N && 0 <= b < N ==> #[trigger] dist[a][b] == (
                        if a < i || (a == i && b < j) { fw(w, k as nat + 1, a, b) } else { fw(w, k as nat, a, b) }),
                decreases N - j,
            {
                proof {
                    lemma_fw_bounds(w, k as nat, i as int, k as int);
                    lemma_fw_bounds(w, k as nat, k as int, j as int);
                    lemma_fw_bounds(w, k as nat, i as int, j as int);
                    // Row and column k are already final in round k.
                    assert(fw(w, k as nat + 1, i as int, k as int) == fw(w, k as nat, i as int, k as int));
                    assert(fw(w, k as nat + 1, k as int, j as int) == fw(w, k as nat, k as int, j as int));
                }
                let through = dist[i][k] + dist[k][j];
                if through < dist[i][j] {
                    set_entry(&mut dist, i, j, through);
                }
                j = j + 1;
            }
            i = i + 1;
        }
        k = k + 1;
    }
    dist
}


/// The total weight of the walk `p` (a sequence of vertices).
pub open spec fn walk_weight(w: [[i64; N]; N], p: Seq<int>) -> int
    decreases p.len(),
{
    if p.len() <= 1 {
        0
    } else {
        walk_weight(w, p.drop_last()) + w[p[p.len() - 2]][p.last()] as int
    }
}

/// `p` is a walk from `from` to `to` along existing edges (weight below
/// `INF`); the one-vertex walk `[from]` goes from `from` to itself.
pub open spec fn is_walk(w: [[i64; N]; N], p: Seq<int>, from: int, to: int) -> bool {
    &&& p.len() >= 1
    &&& p[0] == from
    &&& p.last() == to
    &&& forall|i: int| 0 <= i < p.len() ==> 0 <= #[trigger] p[i] < N
    &&& forall|i: int| 0 <= i < p.len() - 1 ==> #[trigger] w[p[i]][p[i + 1]] < INF
}

/// `d` is the distance from `from` to `to`, capped at `INF`: no walk is
/// lighter than `d`, and unless `d` is `INF` some walk weighs exactly `d`.
pub open spec fn shortest(w: [[i64; N]; N], from: int, to: int, d: int) -> bool {
    &&& 0 <= d <= INF
    &&& forall|p: Seq<int>| #[trigger] is_walk(w, p, from, to) ==> walk_weight(w, p) >= d
    &&& d < INF ==> exists|p: Seq<int>| #[trigger] is_walk(w, p, from, to) && walk_weight(w, p) == d
}

proof fn lemma_walk_weight_push(w: [[i64; N]; N], p: Seq<int>, v: int)
    requires
        p.len() >= 1,
    ensures
        walk_weight(w, p.push(v)) == walk_weight(w, p) + w[p.last()][v] as int,
{
    assert(p.push(v).drop_last() =~= p);
}

proof fn lemma_walk_weight_nonneg(w: [[i64; N]; N], p: Seq<int>)
    requires
        valid_weights(w),
        forall|i: int| 0 <= i < p.len() ==> 0 <= #[trigger] p[i] < N,
    ensures
        walk_weight(w, p) >= 0,
    decreases p.len(),
{
    if p.len() > 1 {
        lemma_walk_weight_nonneg(w, p.drop_last());
        assert(0 <= p[p.len() - 2] < N && 0 <= p[p.len() - 1] < N);
    }
}

/// Splitting a walk at position `m` splits its weight.
proof fn lemma_walk_weight_split(w: [[i64; N]; N], p: Seq<int>, m: int)
    requires
        0 <= m < p.len(),
    ensures
        walk_weight(w, p) == walk_weight(w, p.subrange(0, m + 1)) + walk_weight(
            w,
            p.subrange(m, p.len() as int),
        ),
    decreases p.len(),
{
    if m == p.len() - 1 {
        assert(p.subrange(0, m + 1) =~= p);
        assert(p.subrange(m, p.len() as int).len() == 1);
    } else {
        let q = p.drop_last();
        lemma_walk_weight_split(w, q, m);
        assert(q.subrange(0, m + 1) =~= p.subrange(0, m + 1));
        let t = p.subrange(m, p.len() as int);
        assert(t.drop_last() =~= q.subrange(m, q.len() as int));
        assert(t[t.len() - 2] == p[p.len() - 2]);
    }
}

/// The first `m + 1` vertices of a walk form a walk.
proof fn lemma_walk_prefix(w: [[i64; N]; N], p: Seq<int>, from: int, to: int, m: int)
    requires
        is_walk(w, p, from, to),
        0 <= m < p.len(),
    ensures
        is_walk(w, p.subrange(0, m + 1), from, p[m]),
{
    let q = p.subrange(0, m + 1);
    assert forall|i: int| 0 <= i < q.len() - 1 implies #[trigger] w[q[i]][q[i + 1]] < INF by {
        assert(q[i] == p[i] && q[i + 1] == p[i + 1]);
        assert(w[p[i]][p[i + 1]] < INF);
    }
}

/// Vertices not yet finished, counted.
pub open spec fn count_undone(done: Seq<bool>) -> nat
    decreases done.len(),
{
    if done.len() == 0 {
        0
    } else {
        count_undone(done.drop_last()) + if done.last() { 0nat } else { 1nat }
    }
}

proof fn lemma_count_undone_mark(done: Seq<bool>, i: int)
    requires
        0 <= i < done.len(),
        !done[i],
    ensures
        count_undone(done.update(i, true)) + 1 == count_undone(done),
    decreases done.len(),
{
    let t = done.update(i, true);
    if i == done.len() - 1 {
        assert(t.drop_last() =~= done.drop_last());
    } else {
        assert(t.drop_last() =~= done.drop_last().update(i, true));
        lemma_count_undone_mark(done.drop_last(), i);
    }
}

proof fn lemma_count_undone_zero(done: Seq<bool>)
    requires
        count_undone(done) == 0,
    ensures
        forall|i: int| 0 <= i < done.len() ==> done[i],
    decreases done.len(),
{
    if done.len() > 0 {
        lemma_count_undone_zero(done.drop_last());
        assert forall|i: int| 0 <= i < done.len() implies done[i] by {
            if i < done.len() - 1 {
                assert(done.drop_last()[i] == done[i]);
            }
        }
    }
}

/// A walk from `src` to an unfinished vertex `v` weighs at least the
/// tentative distance of some unfinished vertex: it must leave the finished
/// set over an edge that has already been relaxed.
proof fn lemma_walk_reaches_frontier(
    w: [[i64; N]; N],
    done: Seq<bool>,
    dist: Seq<i64>,
    src: int,
    p: Seq<int>,
    v: int,
) -> (y: int)
    requires
        valid_weights(w),
        done.len() == N,
        dist.len() == N,
        0 <= src < N,
        dist[src] == 0,
        is_walk(w, p, src, v),
        !done[v],
        forall|x: int, q: Seq<int>|
            0 <= x < N && done[x] && #[trigger] is_walk(w, q, src, x) ==> walk_weight(w, q) >= dist[x],
        forall|x: int, z: int|
            0 <= x < N && 0 <= z < N && done[x] && #[trigger] w[x][z] < INF ==> dist[z] <= dist[x]
                + w[x][z],
    ensures
        0 <= y < N,
        !done[y],
        walk_weight(w, p) >= dist[y],
    decreases p.len(),
{
    if p.len() == 1 {
        assert(v == src);
        src
    } else {
        let q = p.drop_last();
        let x = q.last();
        assert(x == p[p.len() - 2]);
        let k = p.len() - 2;
        assert(w[p[k]][p[k + 1]] < INF);
        assert(is_walk(w, q, src, x)) by {
            assert forall|i: int| 0 <= i < q.len() - 1 implies #[trigger] w[q[i]][q[i + 1]] < INF by {
                assert(w[p[i]][p[i + 1]] < INF);
            }
        }
        assert(walk_weight(w, p) == walk_weight(w, q) + w[x][v]);
        assert(0 <= x < N && 0 <= v < N);
        if done[x] {
            assert(walk_weight(w, q) >= dist[x]);
            assert(w[x][v] < INF);
            v
        } else {
            lemma_walk_reaches_frontier(w, done, dist, src, q, x)
        }
    }
}

/// Array-based Dijkstra from `src` (no priority queue): entry `v` of the
/// result is the distance from `src` to `v`, `INF` when `v` is unreachable
/// or its distance is `INF` or more.
pub fn dijkstra(w: &[[i64; N]; N], src: usize) -> (dist: [i64; N])
    requires
        valid_weights(*w),
        src < N,
    ensures
        forall|v: int| 0 <= v < N ==> shortest(*w, src as int, v, #[trigger] dist[v] as int),
{
    let mut dist = [INF; N];
    let mut done = [false; N];
    dist[src] = 0;
    proof {
        let p = seq![src as int];
        assert(is_walk(*w, p, src as int, src as int));
        assert(walk_weight(*w, p) == 0);
        assert(done@ =~= Seq::new(N as nat, |i: int| false));
        assert(count_undone(done@) == N) by {
            reveal_with_fuel(count_undone, 7);
        }
    }
    let mut round: usize = 0;
    while round < N
        invariant
            valid_weights(*w),
            src < N,
            round <= N,
            count_undone(done@) + round == N,
            dist[src as int] == 0,
            forall|v: int| 0 <= v < N ==> 0 <= #[trigger] dist[v] <= INF,
            forall|v: int|
                0 <= v < N && #[trigger] dist[v] < INF ==> exists|p: Seq<int>|
                    #[trigger] is_walk(*w, p, src as int, v) && walk_weight(*w, p) == dist[v],
            forall|x: int, q: Seq<int>|
                0 <= x < N && done[x] && #[trigger] is_walk(*w, q, src as int, x) ==> walk_weight(
                    *w,
                    q,
                ) >= dist[x],
            forall|x: int, z: int|
                0 <= x < N && 0 <= z < N && done[x] && #[trigger] w[x][z] < INF ==> dist[z]
                    <= dist[x] + w[x][z],
            forall|x: int, y: int|
                0 <= x < N && 0 <= y < N && done[x] && !done[y] ==> #[trigger] dist[x]
                    <= #[trigger] dist[y],
        ensures
            round == N || forall|v: int| 0 <= v < N ==> shortest(*w, src as int, v, #[trigger] dist[v] as int),
            count_undone(done@) + round == N,
            forall|v: int| 0 <= v < N ==> 0 <= #[trigger] dist[v] <= INF,
            forall|v: int|
                0 <= v < N && #[trigger] dist[v] < INF ==> exists|p: Seq<int>|
                    #[trigger] is_walk(*w, p, src as int, v) && walk_weight(*w, p) == dist[v],
            forall|x: int, q: Seq<int>|
                0 <= x < N && done[x] && #[trigger] is_walk(*w, q, src as int, x) ==> walk_weight(
                    *w,
                    q,
                ) >= dist[x],
        decreases N - round,
    {
        // Pick the unfinished vertex with the smallest tentative distance.
        let mut u: Option<usize> = None;
        let mut best = INF;
        let mut v: usize = 0;
        while v < N
            invariant
                v <= N,
                u is None ==> best == INF,
                u matches Some(x) ==> x < v && !done[x as int] && dist[x as int] == best && best < INF,
                forall|y: int| 0 <= y < v && !done[y] ==> #[trigger] dist[y] >= best,
            decreases N - v,
        {
            if !done[v] && dist[v] < best {
                best = dist[v];
                u = Some(v);
            }
            v = v + 1;
        }
        let u = match u {
            Some(u) => u,
            None => {
                proof {
                    // Every unfinished vertex is at INF: nothing more is reachable.
                    assert forall|t: int| 0 <= t < N implies shortest(*w, src as int, t, #[trigger] dist[t] as int) by {
                        if !done[t] {
                            assert forall|p: Seq<int>| #[trigger] is_walk(*w, p, src as int, t) implies walk_weight(*w, p) >= dist[t] by {
                                let y = lemma_walk_reaches_frontier(*w, done@, dist@, src as int, p, t);
                                assert(dist[y] >= INF);
                            }
                        }
                    }
                }
                break;
            },
        };
        proof {
            // The picked vertex's tentative distance is final.
            assert forall|q: Seq<int>| #[trigger] is_walk(*w, q, src as int, u as int) implies walk_weight(*w, q) >= dist[u as int] by {
                let y = lemma_walk_reaches_frontier(*w, done@, dist@, src as int, q, u as int);
                assert(dist[y] >= dist[u as int]);
            }
            lemma_count_undone_mark(done@, u as int);
        }
        done[u] = true;
        let ghost d0 = dist;
        let mut v: usize = 0;
        while v < N
            invariant
                valid_weights(*w),
                src < N,
                u < N,
                v <= N,
                done[u as int],
                d0[u as int] < INF,
                dist[u as int] == d0[u as int],
                dist[src as int] == 0,
                forall|t: int| 0 <= t < N ==> 0 <= #[trigger] dist[t] <= d0[t],
                forall|t: int| 0 <= t < N && done[t] ==> #[trigger] dist[t] == d0[t],
                forall|t: int| 0 <= t < N && !done[t] ==> #[trigger] dist[t] >= d0[u as int],
                forall|t: int|
                    0 <= t < v && w[u as int][t] < INF ==> #[trigger] dist[t] <= dist[u as int]
                        + w[u as int][t],
                forall|t: int|
                    0 <= t < N && #[trigger] dist[t] < INF ==> exists|p: Seq<int>|
                        #[trigger] is_walk(*w, p, src as int, t) && walk_weight(*w, p) == dist[t],
                forall|x: int, y: int|
                    0 <= x < N && 0 <= y < N && done[x] && !done[y] && x != u ==> d0[x] <= d0[y],
                forall|x: int| 0 <= x < N && done[x] ==> #[trigger] d0[x] <= d0[u as int],
            decreases N - v,
        {
            if w[u][v] < INF {
                let cand = dist[u] + w[u][v];
                if cand < dist[v] {
                    proof {
                        let p = choose|p: Seq<int>| #[trigger] is_walk(*w, p, src as int, u as int) && walk_weight(*w, p) == dist[u as int];
                        let q = p.push(v as int);
                        lemma_walk_weight_push(*w, p, v as int);
                        assert(is_walk(*w, q, src as int, v as int)) by {
                            assert forall|i: int| 0 <= i < q.len() - 1 implies #[trigger] w[q[i]][q[i + 1]] < INF by {
                                if i < p.len() - 1 {
                                    assert(q[i] == p[i] && q[i + 1] == p[i + 1]);
                                    assert(w[p[i]][p[i + 1]] < INF);
                                }
                            }
                        }
                    }
                    dist[v] = cand;
                }
            }
            v = v + 1;
        }
        round = round + 1;
    }
    proof {
        if round == N {
            lemma_count_undone_zero(done@);
            assert forall|t: int| 0 <= t < N implies shortest(*w, src as int, t, #[trigger] dist[t] as int) by {
                assert(done@[t]);
            }
        }
    }
    dist
}


/// Every vertex strictly inside the walk `p` is below `k`.
pub open spec fn interior_below(p: Seq<int>, k: int) -> bool {
    forall|t: int| 0 < t < p.len() - 1 ==> #[trigger] p[t] < k
}

/// Every vertex is at distance 0 from itself.
pub open spec fn zero_diagonal(w: [[i64; N]; N]) -> bool {
    forall|i: int| 0 <= i < N ==> #[trigger] w[i][i] == 0
}

/// The last `p.len() - m` vertices of a walk form a walk.
proof fn lemma_walk_suffix(w: [[i64; N]; N], p: Seq<int>, from: int, to: int, m: int)
    requires
        is_walk(w, p, from, to),
        0 <= m < p.len(),
    ensures
        is_walk(w, p.subrange(m, p.len() as int), p[m], to),
{
    let q = p.subrange(m, p.len() as int);
    assert forall|i: int| 0 <= i < q.len() - 1 implies #[trigger] w[q[i]][q[i + 1]] < INF by {
        assert(q[i] == p[m + i] && q[i + 1] == p[m + i + 1]);
        assert(w[p[m + i]][p[m + i + 1]] < INF);
    }
}

/// Joining a walk to `x` with a walk from `x` gives a walk whose weight is
/// the sum.
proof fn lemma_walk_join(w: [[i64; N]; N], p: Seq<int>, q: Seq<int>, from: int, x: int, to: int)
    requires
        is_walk(w, p, from, x),
        is_walk(w, q, x, to),
    ensures
        is_walk(w, p + q.drop_first(), from, to),
        walk_weight(w, p + q.drop_first()) == walk_weight(w, p) + walk_weight(w, q),
{
    let r = p + q.drop_first();
    let m = p.len() - 1;
    assert(r.subrange(0, m + 1) =~= p);
    assert(r.subrange(m, r.len() as int) =~= q);
    lemma_walk_weight_split(w, r, m);
    assert forall|i: int| 0 <= i < r.len() - 1 implies #[trigger] w[r[i]][r[i + 1]] < INF by {
        if i < m {
            assert(r[i] == p[i] && r[i + 1] == p[i + 1]);
            assert(w[p[i]][p[i + 1]] < INF);
        } else {
            let j = i - m;
            assert(r[i] == q[j] && r[i + 1] == q[j + 1]);
            assert(w[q[j]][q[j + 1]] < INF);
        }
    }
    assert forall|i: int| 0 <= i < r.len() implies 0 <= #[trigger] r[i] < N by {
        if i <= m {
            assert(r[i] == p[i]);
        } else {
            assert(r[i] == q[i - m]);
        }
    }
}

proof fn lemma_first_occurrence(p: Seq<int>, x: int, t: int) -> (a: int)
    requires
        0 <= t < p.len(),
        p[t] == x,
    ensures
        0 <= a <= t,
        p[a] == x,
        forall|s: int| 0 <= s < a ==> p[s] != x,
    decreases t,
{
    if exists|s: int| 0 <= s < t && p[s] == x {
        let s = choose|s: int| 0 <= s < t && p[s] == x;
        lemma_first_occurrence(p, x, s)
    } else {
        t
    }
}

proof fn lemma_last_occurrence(p: Seq<int>, x: int, t: int) -> (b: int)
    requires
        0 <= t < p.len(),
        p[t] == x,
    ensures
        t <= b < p.len(),
        p[b] == x,
        forall|s: int| b < s < p.len() ==> p[s] != x,
    decreases p.len() - t,
{
    if exists|s: int| t < s < p.len() && p[s] == x {
        let s = choose|s: int| t < s < p.len() && p[s] == x;
        lemma_last_occurrence(p, x, s)
    } else {
        t
    }
}

/// The Floyd–Warshall recurrence after `k` rounds bounds from below every
/// walk whose inner vertices are below `k`, and is the weight of some walk
/// unless it is `INF`.
proof fn lemma_fw_walks(w: [[i64; N]; N], k: nat, i: int, j: int)
    requires
        valid_weights(w),
        zero_diagonal(w),
        k <= N,
        0 <= i < N,
        0 <= j < N,
    ensures
        forall|p: Seq<int>|
            #[trigger] is_walk(w, p, i, j) && interior_below(p, k as int) ==> walk_weight(w, p)
                >= fw(w, k, i, j),
        fw(w, k, i, j) < INF ==> exists|p: Seq<int>|
            #[trigger] is_walk(w, p, i, j) && walk_weight(w, p) == fw(w, k, i, j),
    decreases k,
{
    lemma_fw_bounds(w, k, i, j);
    if k == 0 {
        assert forall|p: Seq<int>|
            #[trigger] is_walk(w, p, i, j) && interior_below(p, k as int) implies walk_weight(w, p)
                >= fw(w, k, i, j) by {
            if p.len() == 1 {
                assert(i == j);
                assert(w[i][i] == 0);
                assert(walk_weight(w, p) == 0);
            } else {
                if p.len() > 2 {
                    assert(p[1] < 0);
                    assert(0 <= p[1]);
                }
                assert(p.len() == 2);
                assert(p.drop_last().len() == 1);
                assert(walk_weight(w, p.drop_last()) == 0);
                assert(walk_weight(w, p) == w[p[0]][p[1]]);
                assert(p[1] == j);
            }
        }
        if fw(w, k, i, j) < INF {
            if i == j {
                let p = seq![i];
                assert(is_walk(w, p, i, j));
                assert(w[i][i] == 0);
                assert(walk_weight(w, p) == fw(w, k, i, j));
            } else {
                let p = seq![i, j];
                assert(p.drop_last() =~= seq![i]);
                assert(is_walk(w, p, i, j)) by {
                    let z: int = 0;
                    assert(w[p[z]][p[z + 1]] < INF);
                }
                assert(walk_weight(w, p.drop_last()) == 0);
                assert(walk_weight(w, p) == fw(w, k, i, j));
            }
        }
    } else {
        let km = (k - 1) as nat;
        let kk = km as int;
        lemma_fw_walks(w, km, i, j);
        lemma_fw_walks(w, km, i, kk);
        lemma_fw_walks(w, km, kk, j);
        lemma_fw_bounds(w, km, i, kk);
        lemma_fw_bounds(w, km, kk, j);
        assert forall|p: Seq<int>|
            #[trigger] is_walk(w, p, i, j) && interior_below(p, k as int) implies walk_weight(w, p)
                >= fw(w, k, i, j) by {
            if interior_below(p, kk) {
            } else {
                let t = choose|t: int| 0 < t < p.len() - 1 && !(#[trigger] p[t] < kk);
                assert(p[t] == kk);
                let a = lemma_first_occurrence(p, kk, t);
                let b = lemma_last_occurrence(p, kk, t);
                let p1 = p.subrange(0, a + 1);
                let r = p.subrange(a, p.len() as int);
                let p2 = p.subrange(b, p.len() as int);
                lemma_walk_prefix(w, p, i, j, a);
                lemma_walk_suffix(w, p, i, j, b);
                lemma_walk_suffix(w, p, i, j, a);
                assert(interior_below(p1, kk)) by {
                    assert forall|s: int| 0 < s < p1.len() - 1 implies #[trigger] p1[s] < kk by {
                        assert(p1[s] == p[s]);
                        assert(p[s] < k);
                    }
                }
                assert(interior_below(p2, kk)) by {
                    assert forall|s: int| 0 < s < p2.len() - 1 implies #[trigger] p2[s] < kk by {
                        assert(p2[s] == p[b + s]);
                        assert(p[b + s] < k);
                    }
                }
                lemma_walk_weight_split(w, p, a);
                lemma_walk_weight_split(w, r, b - a);
                assert(r.subrange(b - a, r.len() as int) =~= p2);
                lemma_walk_weight_nonneg(w, r.subrange(0, b - a + 1));
                assert(walk_weight(w, p1) >= fw(w, km, i, kk));
                assert(walk_weight(w, p2) >= fw(w, km, kk, j));
            }
        }
        if fw(w, k, i, j) < INF {
            let through = fw(w, km, i, kk) + fw(w, km, kk, j);
            if through < fw(w, km, i, j) {
                let p1 = choose|p: Seq<int>| #[trigger] is_walk(w, p, i, kk) && walk_weight(w, p) == fw(w, km, i, kk);
                let p2 = choose|p: Seq<int>| #[trigger] is_walk(w, p, kk, j) && walk_weight(w, p) == fw(w, km, kk, j);
                lemma_walk_join(w, p1, p2, i, kk, j);
            }
        }
    }
}

/// Floyd–Warshall computes distances: on a weight matrix with a zero
/// diagonal, the recurrence after all `N` rounds is the distance from `i`
/// to `j`, capped at `INF`.
pub proof fn lemma_fw_is_shortest(w: [[i64; N]; N], i: int, j: int)
    requires
        valid_weights(w),
        zero_diagonal(w),
        0 <= i < N,
        0 <= j < N,
    ensures
        shortest(w, i, j, fw(w, N as nat, i, j)),
{
    lemma_fw_walks(w, N as nat, i, j);
    lemma_fw_bounds(w, N as nat, i, j);
    assert forall|p: Seq<int>| #[trigger] is_walk(w, p, i, j) implies walk_weight(w, p) >= fw(w, N as nat, i, j) by {
        assert(interior_below(p, N as int));
    }
}

proof fn lemma_fw_decreasing(w: [[i64; N]; N], k: nat, i: int, j: int)
    requires
        valid_weights(w),
        0 <= i < N,
        0 <= j < N,
        k <= N,
    ensures
        fw(w, k, i, j) <= w[i][j],
    decreases k,
{
    if k > 0 {
        lemma_fw_decreasing(w, (k - 1) as nat, i, j);
    }
}

/// The Floyd–Warshall distances are no longer than the direct edges, vanish
/// on the diagonal, and obey the triangle inequality: going through `m`
/// is never shorter than the distance from `i` to `j`.
pub proof fn lemma_fw_metric(w: [[i64; N]; N], i: int, j: int, m: int)
    requires
        valid_weights(w),
        zero_diagonal(w),
        0 <= i < N,
        0 <= j < N,
        0 <= m < N,
    ensures
        fw(w, N as nat, i, j) <= w[i][j],
        fw(w, N as nat, i, i) == 0,
        fw(w, N as nat, i, j) <= fw(w, N as nat, i, m) + fw(w, N as nat, m, j),
{
    lemma_fw_decreasing(w, N as nat, i, j);
    lemma_fw_decreasing(w, N as nat, i, i);
    lemma_fw_bounds(w, N as nat, i, i);
    assert(w[i][i] == 0);
    lemma_fw_is_shortest(w, i, j);
    lemma_fw_is_shortest(w, i, m);
    lemma_fw_is_shortest(w, m, j);
    let d1 = fw(w, N as nat, i, m);
    let d2 = fw(w, N as nat, m, j);
    if d1 < INF && d2 < INF {
        let p1 = choose|p: Seq<int>| #[trigger] is_walk(w, p, i, m) && walk_weight(w, p) == d1;
        let p2 = choose|p: Seq<int>| #[trigger] is_walk(w, p, m, j) && walk_weight(w, p) == d2;
        lemma_walk_join(w, p1, p2, i, m, j);
        assert(is_walk(w, p1 + p2.drop_first(), i, j));
    }
}

/// A distance is unique: two values that both satisfy [`shortest`] agree.
pub proof fn lemma_shortest_unique(w: [[i64; N]; N], i: int, j: int, d1: int, d2: int)
    requires
        shortest(w, i, j, d1),
        shortest(w, i, j, d2),
    ensures
        d1 == d2,
{
    if d1 < d2 {
        let p = choose|p: Seq<int>| #[trigger] is_walk(w, p, i, j) && walk_weight(w, p) == d1;
    } else if d2 < d1 {
        let p = choose|p: Seq<int>| #[trigger] is_walk(w, p, i, j) && walk_weight(w, p) == d2;
    }
}

/// Floyd–Warshall and Dijkstra agree on every entry: on a weight matrix
/// with a zero diagonal, any value that is the distance from `src` to `v`
/// (as every entry of [`dijkstra`]'s result is) equals entry `(src, v)` of
/// [`floyd_warshall`]'s result.
pub proof fn lemma_floyd_agrees_with_dijkstra(w: [[i64; N]; N], src: int, v: int, d: int)
    requires
        valid_weights(w),
        zero_diagonal(w),
        0 <= src < N,
        0 <= v < N,
        shortest(w, src, v, d),
    ensures
        fw(w, N as nat, src, v) == d,
{
    lemma_fw_is_shortest(w, src, v);
    lemma_shortest_unique(w, src, v, fw(w, N as nat, src, v), d);
}

} // verus!
