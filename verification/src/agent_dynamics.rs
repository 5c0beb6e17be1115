//! Agent dynamics: classifying a flow from its equilibria, and grouping agents
//! into clusters of mutually close agents.
use vstd::prelude::*;
use crate::vector_field::EquilibriumType;
use crate::differential_form::parity::{count_unvisited, lemma_count_unvisited_mark};

verus! {

/// Classify the overall dynamics of a flow.
#[derive(Debug, Clone, Copy, PartialEq, Eq, Structural)]
pub enum DynamicsType {
    /// All trajectories converge to a single point.
    Convergent,
    /// All trajectories diverge.
    Divergent,
    /// Trajectories orbit around equilibria.
    Oscillatory,
    /// Mix of behaviors.
    Mixed,
    /// Gradient-like (all trajectories converge to equilibria).
    GradientLike,
}

pub open spec fn has_kind(cs: Seq<EquilibriumType>, t: EquilibriumType) -> bool {
    exists|i: int| 0 <= i < cs.len() && cs[i] == t
}

/// The overall dynamics of a flow with `num_equilibria` equilibria classified
/// as `cs`: divergent without equilibria; oscillatory when there are only
/// centers (among the stable, unstable, saddle and center kinds); convergent
/// when there are stable points and neither unstable points nor saddles;
/// divergent when there are unstable points and no stable ones; mixed otherwise.
pub open spec fn flow_dynamics(num_equilibria: nat, cs: Seq<EquilibriumType>) -> DynamicsType {
    let stable = has_kind(cs, EquilibriumType::Stable);
    let unstable = has_kind(cs, EquilibriumType::Unstable);
    let saddle = has_kind(cs, EquilibriumType::Saddle);
    let center = has_kind(cs, EquilibriumType::Center);
    if num_equilibria == 0 {
        DynamicsType::Divergent
    } else if center && !stable && !unstable && !saddle {
        DynamicsType::Oscillatory
    } else if stable && !unstable && !saddle {
        DynamicsType::Convergent
    } else if unstable && !stable {
        DynamicsType::Divergent
    } else {
        DynamicsType::Mixed
    }
}

fn contains_kind(cs: &[EquilibriumType], t: EquilibriumType) -> (found: bool)
    ensures
        found == has_kind(cs@, t),
{
    let mut k: usize = 0;
    while k < cs.len()
        invariant
            k <= cs.len(),
            forall|i: int| 0 <= i < k ==> cs@[i] != t,
        decreases cs.len() - k,
    {
        if cs[k] == t {
            return true;
        }
        k = k + 1;
    }
    false
}

/// Classify the dynamics of a flow from the number of its equilibria and their
/// classifications.
pub fn classify_flow(num_equilibria: usize, classifications: &[EquilibriumType]) -> (d: DynamicsType)
    ensures
        d == flow_dynamics(num_equilibria as nat, classifications@),
{
    if num_equilibria == 0 {
        return DynamicsType::Divergent;
    }
    let has_stable = contains_kind(classifications, EquilibriumType::Stable);
    let has_unstable = contains_kind(classifications, EquilibriumType::Unstable);
    let has_saddle = contains_kind(classifications, EquilibriumType::Saddle);
    let has_center = contains_kind(classifications, EquilibriumType::Center);
    if has_center && !has_stable && !has_unstable && !has_saddle {
        return DynamicsType::Oscillatory;
    }
    if has_stable && !has_unstable && !has_saddle {
        return DynamicsType::Convergent;
    }
    if has_unstable && !has_stable {
        return DynamicsType::Divergent;
    }
    DynamicsType::Mixed
}

/// What each answer means, for a flow with `num_equilibria` equilibria
/// classified as `cs`: convergent exactly when there are equilibria, a stable
/// one, and no unstable one and no saddle; oscillatory exactly when there are
/// equilibria, a center, and no stable or unstable one and no saddle;
/// divergent exactly when there are no equilibria, or an unstable one and no
/// stable one; never gradient-like; mixed in every other case.
pub proof fn lemma_flow_dynamics_meaning(num_equilibria: nat, cs: Seq<EquilibriumType>)
    ensures
        flow_dynamics(num_equilibria, cs) == DynamicsType::Convergent <==> {
            &&& num_equilibria > 0
            &&& exists|k: int| 0 <= k < cs.len() && cs[k] == EquilibriumType::Stable
            &&& forall|k: int|
                0 <= k < cs.len() ==> cs[k] != EquilibriumType::Unstable && cs[k] != EquilibriumType::Saddle
        },
        flow_dynamics(num_equilibria, cs) == DynamicsType::Oscillatory <==> {
            &&& num_equilibria > 0
            &&& exists|k: int| 0 <= k < cs.len() && cs[k] == EquilibriumType::Center
            &&& forall|k: int|
                0 <= k < cs.len() ==> cs[k] != EquilibriumType::Stable && cs[k] != EquilibriumType::Unstable
                    && cs[k] != EquilibriumType::Saddle
        },
        flow_dynamics(num_equilibria, cs) == DynamicsType::Divergent <==> (num_equilibria == 0 || {
            &&& exists|k: int| 0 <= k < cs.len() && cs[k] == EquilibriumType::Unstable
            &&& forall|k: int| 0 <= k < cs.len() ==> cs[k] != EquilibriumType::Stable
        }),
        flow_dynamics(num_equilibria, cs) != DynamicsType::GradientLike,
{
    let no_u = forall|k: int| 0 <= k < cs.len() ==> cs[k] != EquilibriumType::Unstable;
    let no_st = forall|k: int| 0 <= k < cs.len() ==> cs[k] != EquilibriumType::Stable;
    let no_sa = forall|k: int| 0 <= k < cs.len() ==> cs[k] != EquilibriumType::Saddle;
    assert(no_u <==> !has_kind(cs, EquilibriumType::Unstable)) by {
        if has_kind(cs, EquilibriumType::Unstable) {
            let k = choose|k: int| 0 <= k < cs.len() && cs[k] == EquilibriumType::Unstable;
        }
    }
    assert(no_st <==> !has_kind(cs, EquilibriumType::Stable)) by {
        if has_kind(cs, EquilibriumType::Stable) {
            let k = choose|k: int| 0 <= k < cs.len() && cs[k] == EquilibriumType::Stable;
        }
    }
    assert(no_sa <==> !has_kind(cs, EquilibriumType::Saddle)) by {
        if has_kind(cs, EquilibriumType::Saddle) {
            let k = choose|k: int| 0 <= k < cs.len() && cs[k] == EquilibriumType::Saddle;
        }
    }
    assert((forall|k: int| 0 <= k < cs.len() ==> cs[k] != EquilibriumType::Unstable && cs[k] != EquilibriumType::Saddle)
        <==> (no_u && no_sa));
    assert((forall|k: int|
        0 <= k < cs.len() ==> cs[k] != EquilibriumType::Stable && cs[k] != EquilibriumType::Unstable && cs[k]
            != EquilibriumType::Saddle) <==> (no_st && no_u && no_sa));
}

/// A flow with both a stable and an unstable equilibrium (or a stable one and
/// a saddle), wherever they stand in the list, is mixed.
pub proof fn lemma_stable_with_unstable_is_mixed(num_equilibria: nat, cs: Seq<EquilibriumType>, i: int, j: int)
    requires
        num_equilibria > 0,
        0 <= i < cs.len(),
        0 <= j < cs.len(),
        cs[i] == EquilibriumType::Stable,
        cs[j] == EquilibriumType::Unstable || cs[j] == EquilibriumType::Saddle,
    ensures
        flow_dynamics(num_equilibria, cs) == DynamicsType::Mixed,
{
    assert(has_kind(cs, EquilibriumType::Stable));
    assert(has_kind(cs, cs[j]));
}

/// The dynamics depend only on which kinds of equilibria occur, not on their
/// order: exchanging two classifications changes nothing.
pub proof fn lemma_flow_dynamics_ignores_order(num_equilibria: nat, cs: Seq<EquilibriumType>, i: int, j: int)
    requires
        0 <= i < cs.len(),
        0 <= j < cs.len(),
    ensures
        flow_dynamics(num_equilibria, cs.update(i, cs[j]).update(j, cs[i])) == flow_dynamics(num_equilibria, cs),
{
    let t = cs.update(i, cs[j]).update(j, cs[i]);
    assert forall|e: EquilibriumType| has_kind(cs, e) <==> has_kind(t, e) by {
        if has_kind(cs, e) {
            let k = choose|k: int| 0 <= k < cs.len() && cs[k] == e;
            let m = if k == i { j } else if k == j { i } else { k };
            assert(t[m] == e);
        }
        if has_kind(t, e) {
            let k = choose|k: int| 0 <= k < t.len() && t[k] == e;
            let m = if k == j { i } else if k == i { j } else { k };
            assert(cs[m] == e);
        }
    }
}

/// Only stable equilibria, at least one: the flow is convergent.
pub proof fn lemma_all_stable_is_convergent(num_equilibria: nat, cs: Seq<EquilibriumType>)
    requires
        num_equilibria > 0,
        cs.len() > 0,
        forall|k: int| 0 <= k < cs.len() ==> cs[k] == EquilibriumType::Stable,
    ensures
        flow_dynamics(num_equilibria, cs) == DynamicsType::Convergent,
{
    assert(cs[0] == EquilibriumType::Stable);
    assert(has_kind(cs, EquilibriumType::Stable));
    assert(!has_kind(cs, EquilibriumType::Unstable));
    assert(!has_kind(cs, EquilibriumType::Saddle));
}

// ---------------------------------------------------------------------------
// Clusters of agents
// ---------------------------------------------------------------------------

/// x belongs to one of the clusters in `cs`.
pub open spec fn clustered(cs: Seq<Seq<usize>>, x: usize) -> bool {
    exists|c: int| 0 <= c < cs.len() && #[trigger] cs[c].contains(x)
}

/// `p` is a nonempty walk along the closeness relation `close` that never
/// enters a cluster of `avoid`.
pub open spec fn is_walk(close: Seq<Seq<bool>>, avoid: Seq<Seq<usize>>, p: Seq<usize>) -> bool {
    &&& p.len() > 0
    &&& forall|m: int| 0 <= m < p.len() ==> #[trigger] p[m] < close.len() && !clustered(avoid, p[m])
    &&& forall|m: int| 0 <= m < p.len() - 1 ==> #[trigger] close[p[m] as int][p[m + 1] as int]
}

/// x can be reached from s by a walk along `close` that avoids the clusters of `avoid`.
pub open spec fn reachable_avoiding(
    close: Seq<Seq<bool>>,
    avoid: Seq<Seq<usize>>,
    s: usize,
    x: usize,
) -> bool {
    exists|p: Seq<usize>| #[trigger] is_walk(close, avoid, p) && p[0] == s && p.last() == x
}

/// `close` is an n × n relation.
pub open spec fn is_square(close: Seq<Seq<bool>>) -> bool {
    forall|j: int| 0 <= j < close.len() ==> #[trigger] close[j].len() == close.len()
}

/// Each cluster of `cs` is nonempty and repeats no index; cluster c starts at
/// the smallest index left over by the clusters before it, and holds exactly
/// the indices reachable from that start along `close` without entering an
/// earlier cluster.
pub open spec fn is_clustering_prefix(close: Seq<Seq<bool>>, cs: Seq<Seq<usize>>) -> bool {
    &&& forall|c: int| 0 <= c < cs.len() ==> (#[trigger] cs[c]).len() > 0 && cs[c].no_duplicates()
    &&& forall|c: int, m: int|
        0 <= c < cs.len() && 0 <= m < cs[c].len() ==> #[trigger] cs[c][m] < close.len()
    &&& forall|c: int, x: usize|
        0 <= c < cs.len() && x < close.len() ==> (#[trigger] cs[c].contains(x) <==> reachable_avoiding(
            close,
            cs.take(c),
            cs[c][0],
            x,
        ))
    &&& forall|c: int, x: usize|
        0 <= c < cs.len() && x < cs[c][0] ==> #[trigger] clustered(cs.take(c), x)
}

/// `cs` groups the indices 0..n, n = close.len(), into clusters: every index
/// lies in a cluster (and, by `is_clustering_prefix`, in one only).
pub open spec fn is_clustering(close: Seq<Seq<bool>>, cs: Seq<Seq<usize>>) -> bool {
    &&& is_clustering_prefix(close, cs)
    &&& forall|x: usize| x < close.len() ==> #[trigger] clustered(cs, x)
}

/// `stack` after pushing, in increasing order, each index x < k that `row`
/// marks as close and `visited` as not yet visited.
pub open spec fn push_neighbors(row: Seq<bool>, visited: Seq<bool>, stack: Seq<usize>, k: nat) -> Seq<usize>
    decreases k,
{
    if k == 0 {
        stack
    } else {
        let s = push_neighbors(row, visited, stack, (k - 1) as nat);
        if row[k - 1] && !visited[k - 1] {
            s.push((k - 1) as usize)
        } else {
            s
        }
    }
}

/// The order in which a depth-first search along `close` visits indices,
/// appended to `order`. It takes the index on top of `stack`; if that index is
/// not yet visited, it records it, marks it, and pushes its close unvisited
/// indices in increasing order, so that the largest of them is explored next.
pub open spec fn depth_first_order(
    close: Seq<Seq<bool>>,
    visited: Seq<bool>,
    stack: Seq<usize>,
    order: Seq<usize>,
) -> Seq<usize>
    decreases count_unvisited(visited), stack.len(),
{
    if stack.len() == 0 {
        order
    } else {
        let j = stack.last();
        let rest = stack.drop_last();
        if j >= visited.len() {
            order
        } else if visited[j as int] {
            depth_first_order(close, visited, rest, order)
        } else {
            let marked = visited.update(j as int, true);
            proof {
                lemma_count_unvisited_mark(visited, j as int);
            }
            depth_first_order(
                close,
                marked,
                push_neighbors(close[j as int], marked, rest, visited.len()),
                order.push(j),
            )
        }
    }
}

/// Which of the indices 0..n lie in one of the clusters of `cs`.
pub open spec fn placed(cs: Seq<Seq<usize>>, n: nat) -> Seq<bool> {
    Seq::new(n, |x: int| clustered(cs, x as usize))
}

/// Each cluster lists its indices in the order in which a depth-first search
/// from its first index, with the earlier clusters marked visited, reaches them.
pub open spec fn is_depth_first(close: Seq<Seq<bool>>, cs: Seq<Seq<usize>>) -> bool {
    forall|c: int|
        0 <= c < cs.len() ==> #[trigger] cs[c] == depth_first_order(
            close,
            placed(cs.take(c), close.len()),
            seq![cs[c][0]],
            Seq::empty(),
        )
}

proof fn lemma_push_cluster(
    adj: Seq<Seq<bool>>,
    earlier: Seq<Seq<usize>>,
    now: Seq<Seq<usize>>,
    cl: Seq<usize>,
    i: usize,
)
    requires
        is_clustering_prefix(adj, earlier),
        now == earlier.push(cl),
        cl.len() > 0,
        cl[0] == i,
        cl.no_duplicates(),
        forall|m: int| 0 <= m < cl.len() ==> #[trigger] cl[m] < adj.len(),
        forall|x: usize| x < adj.len() ==> (#[trigger] cl.contains(x) <==> reachable_avoiding(adj, earlier, i, x)),
        forall|x: usize| x < i ==> #[trigger] clustered(earlier, x),
    ensures
        is_clustering_prefix(adj, now),
        forall|x: usize| #[trigger] clustered(now, x) <==> (clustered(earlier, x) || cl.contains(x)),
{
    let e = earlier.len() as int;
    assert(now.take(e) =~= earlier);
    assert forall|c: int| 0 <= c < e implies now.take(c) =~= earlier.take(c) by {}
    assert forall|c: int| 0 <= c < now.len() implies (#[trigger] now[c]).len() > 0 && now[c].no_duplicates() by {
        if c < e {
            assert(now[c] == earlier[c]);
        }
    }
    assert forall|c: int, m: int| 0 <= c < now.len() && 0 <= m < now[c].len() implies #[trigger] now[c][m]
        < adj.len() by {
        if c < e {
            assert(now[c] == earlier[c]);
        }
    }
    assert forall|c: int, x: usize| 0 <= c < now.len() && x < adj.len() implies (#[trigger] now[c].contains(x)
        <==> reachable_avoiding(adj, now.take(c), now[c][0], x)) by {
        if c < e {
            assert(now[c] == earlier[c]);
            assert(now.take(c) =~= earlier.take(c));
        } else {
            assert(now[c] == cl);
        }
    }
    assert forall|c: int, x: usize| 0 <= c < now.len() && x < now[c][0] implies #[trigger] clustered(
        now.take(c),
        x,
    ) by {
        if c < e {
            assert(now[c] == earlier[c]);
            assert(now.take(c) =~= earlier.take(c));
        } else {
            assert(now[c] == cl);
        }
    }
    assert forall|x: usize| #[trigger] clustered(now, x) <==> (clustered(earlier, x) || cl.contains(x)) by {
        if clustered(now, x) {
            let c = choose|c: int| 0 <= c < now.len() && #[trigger] now[c].contains(x);
            if c < e {
                assert(earlier[c] == now[c]);
            }
        }
        if clustered(earlier, x) {
            let c = choose|c: int| 0 <= c < earlier.len() && #[trigger] earlier[c].contains(x);
            assert(now[c] == earlier[c]);
        }
        if cl.contains(x) {
            assert(now[e] == cl);
        }
    }
}

proof fn lemma_walk_extend(close: Seq<Seq<bool>>, avoid: Seq<Seq<usize>>, p: Seq<usize>, y: usize)
    requires
        is_walk(close, avoid, p),
        y < close.len(),
        !clustered(avoid, y),
        close[p.last() as int][y as int],
    ensures
        is_walk(close, avoid, p.push(y)),
        p.push(y)[0] == p[0],
        p.push(y).last() == y,
{
    let q = p.push(y);
    assert forall|m: int| 0 <= m < q.len() implies #[trigger] q[m] < close.len() && !clustered(
        avoid,
        q[m],
    ) by {
        if m < p.len() {
            assert(q[m] == p[m]);
        }
    }
    assert forall|m: int| 0 <= m < q.len() - 1 implies #[trigger] close[q[m] as int][q[m + 1] as int] by {
        if m < p.len() - 1 {
            assert(q[m] == p[m]);
            assert(q[m + 1] == p[m + 1]);
        }
    }
}

/// A walk that starts in a set closed under `close` (up to the avoided clusters) stays in it.
proof fn lemma_walk_stays(
    close: Seq<Seq<bool>>,
    avoid: Seq<Seq<usize>>,
    cl: Seq<usize>,
    p: Seq<usize>,
    m: int,
)
    requires
        is_walk(close, avoid, p),
        cl.contains(p[0]),
        forall|j: usize, k: usize|
            cl.contains(j) && k < close.len() && #[trigger] close[j as int][k as int] ==> clustered(avoid, k)
                || cl.contains(k),
        0 <= m < p.len(),
    ensures
        cl.contains(p[m]),
    decreases m,
{
    if m > 0 {
        lemma_walk_stays(close, avoid, cl, p, m - 1);
        let a = p[m - 1];
        let b = p[m];
        assert(p[(m - 1) + 1] == b);
        assert(close[a as int][b as int]);
        assert(p[m] < close.len() && !clustered(avoid, p[m]));
    }
}

/// Explores from `i` along `close`, marking what it reaches, and returns the
/// cluster of indices reachable from `i` without entering an earlier cluster.
fn grow_cluster(
    close: &Vec<Vec<bool>>,
    visited: &mut Vec<bool>,
    i: usize,
    Ghost(earlier): Ghost<Seq<Seq<usize>>>,
) -> (cluster: Vec<usize>)
    requires
        is_square(close.deep_view()),
        i < close.len(),
        old(visited)@.len() == close.len(),
        forall|x: usize| x < close.len() ==> (old(visited)@[x as int] <==> clustered(earlier, x)),
        !old(visited)@[i as int],
    ensures
        final(visited)@.len() == close.len(),
        forall|x: usize|
            x < close.len() ==> (final(visited)@[x as int] <==> (clustered(earlier, x) || cluster@.contains(x))),
        cluster@.len() > 0,
        cluster@[0] == i,
        cluster@.no_duplicates(),
        forall|m: int| 0 <= m < cluster@.len() ==> #[trigger] cluster@[m] < close.len(),
        forall|x: usize|
            x < close.len() ==> (#[trigger] cluster@.contains(x) <==> reachable_avoiding(
                close.deep_view(),
                earlier,
                i,
                x,
            )),
        cluster@ == depth_first_order(close.deep_view(), old(visited)@, seq![i], Seq::empty()),
{
    let n = close.len();
    let ghost adj = close.deep_view();
    let mut cluster: Vec<usize> = Vec::new();
    let mut stack: Vec<usize> = Vec::new();
    stack.push(i);
    let ghost start = visited@;
    proof {
        assert(!clustered(earlier, i));
        let w = seq![i];
        assert(is_walk(adj, earlier, w));
    }
    while stack.len() > 0
        invariant
            n == close.len(),
            adj == close.deep_view(),
            is_square(adj),
            i < n,
            !clustered(earlier, i),
            visited@.len() == n,
            forall|x: usize| x < n ==> (visited@[x as int] <==> (clustered(earlier, x) || cluster@.contains(x))),
            cluster@.no_duplicates(),
            forall|m: int|
                0 <= m < cluster@.len() ==> #[trigger] cluster@[m] < n && reachable_avoiding(adj, earlier, i, cluster@[m]),
            forall|m: int|
                0 <= m < stack@.len() ==> #[trigger] stack@[m] < n && reachable_avoiding(adj, earlier, i, stack@[m]),
            forall|j: usize, k: usize|
                cluster@.contains(j) && k < n && #[trigger] adj[j as int][k as int] ==> visited@[k as int]
                    || stack@.contains(k),
            cluster@.len() == 0 ==> stack@ == seq![i],
            cluster@.len() > 0 ==> cluster@[0] == i,
            depth_first_order(adj, visited@, stack@, cluster@) == depth_first_order(
                adj,
                start,
                seq![i],
                Seq::empty(),
            ),
        decreases count_unvisited(visited@), stack@.len(),
    {
        let ghost stack0 = stack@;
        let j = stack.pop().unwrap();
        proof {
            assert(stack0 == stack@.push(j));
            assert(stack0[stack0.len() - 1] == j);
            assert(stack0.drop_last() =~= stack@);
        }
        if !visited[j] {
            let ghost visited0 = visited@;
            let ghost cluster0 = cluster@;
            proof {
                lemma_count_unvisited_mark(visited@, j as int);
            }
            visited.set(j, true);
            cluster.push(j);
            proof {
                assert forall|x: usize| x < n implies (visited@[x as int] <==> (clustered(earlier, x)
                    || cluster@.contains(x))) by {
                    if x == j {
                        assert(cluster@[cluster@.len() - 1] == j);
                    } else {
                        if cluster@.contains(x) {
                            let m = choose|m: int| 0 <= m < cluster@.len() && cluster@[m] == x;
                            assert(cluster0[m] == x);
                        }
                        if cluster0.contains(x) {
                            let m = choose|m: int| 0 <= m < cluster0.len() && cluster0[m] == x;
                            assert(cluster@[m] == x);
                        }
                    }
                }
            }
            let ghost stack1 = stack@;
            let row = &close[j];
            proof {
                assert(row@ =~= adj[j as int]);
            }
            let mut k: usize = 0;
            while k < n
                invariant
                    n == close.len(),
                    adj == close.deep_view(),
                    is_square(adj),
                    j < n,
                    row@ == adj[j as int],
                    k <= n,
                    visited@.len() == n,
                    forall|x: usize| x < n ==> (visited@[x as int] <==> (clustered(earlier, x) || cluster@.contains(x))),
                    reachable_avoiding(adj, earlier, i, j),
                    stack@.len() >= stack1.len(),
                    forall|m: int| 0 <= m < stack1.len() ==> stack@[m] == stack1[m],
                    forall|m: int|
                        0 <= m < stack@.len() ==> #[trigger] stack@[m] < n && reachable_avoiding(adj, earlier, i, stack@[m]),
                    forall|x: usize| x < k && #[trigger] adj[j as int][x as int] ==> visited@[x as int] || stack@.contains(x),
                    stack@ == push_neighbors(adj[j as int], visited@, stack1, k as nat),
                decreases n - k,
            {
                if !visited[k] && row[k] {
                    proof {
                        let p = choose|p: Seq<usize>| #[trigger] is_walk(adj, earlier, p) && p[0] == i && p.last() == j;
                        lemma_walk_extend(adj, earlier, p, k);
                    }
                    let ghost sb = stack@;
                    stack.push(k);
                    proof {
                        assert(stack@[stack@.len() - 1] == k);
                        assert forall|x: usize| x < k && #[trigger] adj[j as int][x as int] implies visited@[x as int]
                            || stack@.contains(x) by {
                            if !visited@[x as int] {
                                let m = choose|m: int| 0 <= m < sb.len() && sb[m] == x;
                                assert(stack@[m] == x);
                            }
                        }
                    }
                }
                k = k + 1;
            }
            proof {
                assert(depth_first_order(adj, visited0, stack0, cluster0) == depth_first_order(
                    adj,
                    visited@,
                    stack@,
                    cluster@,
                ));
                assert forall|jj: usize, kk: usize| cluster@.contains(jj) && kk < n && #[trigger] adj[jj as int][kk as int]
                    implies visited@[kk as int] || stack@.contains(kk) by {
                    if jj != j {
                        assert(cluster0.contains(jj));
                        if !visited0[kk as int] && kk != j {
                            assert(stack0.contains(kk));
                            let m = choose|m: int| 0 <= m < stack0.len() && stack0[m] == kk;
                            assert(m < stack1.len());
                            assert(stack@[m] == kk);
                        }
                    }
                }
                assert forall|m: int| 0 <= m < cluster@.len() implies #[trigger] cluster@[m] < n && reachable_avoiding(
                    adj,
                    earlier,
                    i,
                    cluster@[m],
                ) by {
                    if m < cluster0.len() {
                        assert(cluster@[m] == cluster0[m]);
                    }
                }
                assert forall|a: int, b: int| 0 <= a < cluster@.len() && 0 <= b < cluster@.len() && a != b
                    implies cluster@[a] != cluster@[b] by {
                    if a < cluster0.len() && b < cluster0.len() {
                    } else if a < cluster0.len() {
                        assert(cluster0.contains(cluster@[a]));
                    } else {
                        assert(cluster0.contains(cluster@[b]));
                    }
                }
            }
        } else {
            proof {
                assert(depth_first_order(adj, visited@, stack0, cluster@) == depth_first_order(
                    adj,
                    visited@,
                    stack@,
                    cluster@,
                ));
                assert forall|jj: usize, kk: usize| cluster@.contains(jj) && kk < n && #[trigger] adj[jj as int][kk as int]
                    implies visited@[kk as int] || stack@.contains(kk) by {
                    if !visited@[kk as int] {
                        assert(stack0.contains(kk));
                        let m = choose|m: int| 0 <= m < stack0.len() && stack0[m] == kk;
                        if m < stack@.len() {
                            assert(stack@[m] == kk);
                        }
                    }
                }
            }
        }
    }
    proof {
        assert(cluster@[0] == i);
        assert(cluster@.contains(i));
        assert forall|x: usize| x < n implies (#[trigger] cluster@.contains(x) <==> reachable_avoiding(
            adj,
            earlier,
            i,
            x,
        )) by {
            if cluster@.contains(x) {
                let m = choose|m: int| 0 <= m < cluster@.len() && cluster@[m] == x;
                assert(reachable_avoiding(adj, earlier, i, cluster@[m]));
            }
            if reachable_avoiding(adj, earlier, i, x) {
                let p = choose|p: Seq<usize>| #[trigger] is_walk(adj, earlier, p) && p[0] == i && p.last() == x;
                assert forall|jj: usize, kk: usize| cluster@.contains(jj) && kk < adj.len()
                    && #[trigger] adj[jj as int][kk as int] implies clustered(earlier, kk) || cluster@.contains(kk) by {
                    assert(visited@[kk as int]);
                }
                lemma_walk_stays(adj, earlier, cluster@, p, p.len() - 1);
            }
        }
    }
    cluster
}

/// Groups the indices 0..n into clusters of indices joined by chains of
/// `close` entries, exploring from the smallest index not yet placed; each
/// cluster lists its indices in the order of a depth-first search.
pub fn connected_clusters(close: &Vec<Vec<bool>>) -> (cs: Vec<Vec<usize>>)
    requires
        is_square(close.deep_view()),
    ensures
        is_clustering(close.deep_view(), cs.deep_view()),
        is_depth_first(close.deep_view(), cs.deep_view()),
{
    let n = close.len();
    let ghost adj = close.deep_view();
    let mut visited: Vec<bool> = Vec::new();
    let mut k: usize = 0;
    while k < n
        invariant
            k <= n,
            visited@ == Seq::new(k as nat, |x: int| false),
        decreases n - k,
    {
        visited.push(false);
        k = k + 1;
        assert(visited@ =~= Seq::new(k as nat, |x: int| false));
    }
    let mut clusters: Vec<Vec<usize>> = Vec::new();
    let mut i: usize = 0;
    while i < n
        invariant
            n == close.len(),
            adj == close.deep_view(),
            is_square(adj),
            i <= n,
            visited@.len() == n,
            forall|x: usize| x < n ==> (visited@[x as int] <==> clustered(clusters.deep_view(), x)),
            forall|x: usize| x < i ==> visited@[x as int],
            is_clustering_prefix(adj, clusters.deep_view()),
            is_depth_first(adj, clusters.deep_view()),
        decreases n - i,
    {
        if !visited[i] {
            let ghost earlier = clusters.deep_view();
            let ghost visited0 = visited@;
            let cluster = grow_cluster(close, &mut visited, i, Ghost(earlier));
            let ghost cl = cluster@;
            proof {
                assert(cluster.deep_view() =~= cl);
                assert(cl.contains(i)) by {
                    assert(cl[0] == i);
                }
                assert forall|x: usize| x < i implies #[trigger] clustered(earlier, x) by {
                    assert(visited0[x as int]);
                }
            }
            clusters.push(cluster);
            proof {
                assert(clusters.deep_view() =~= earlier.push(cl));
                lemma_push_cluster(adj, earlier, clusters.deep_view(), cl, i);
                assert(visited0 =~= placed(earlier, n as nat));
                let now = clusters.deep_view();
                assert forall|c: int| 0 <= c < now.len() implies #[trigger] now[c] == depth_first_order(
                    adj,
                    placed(now.take(c), n as nat),
                    seq![now[c][0]],
                    Seq::empty(),
                ) by {
                    if c < earlier.len() {
                        assert(now.take(c) =~= earlier.take(c));
                        assert(now[c] == earlier[c]);
                    } else {
                        assert(now.take(c) =~= earlier);
                        assert(now[c] == cl);
                    }
                }
                assert forall|x: usize| x < i + 1 implies visited@[x as int] by {
                    if x < i {
                        assert(clustered(earlier, x));
                    }
                }
            }
        }
        i = i + 1;
    }
    proof {
        assert forall|x: usize| x < n implies #[trigger] clustered(clusters.deep_view(), x) by {
            assert(visited@[x as int]);
        }
    }
    clusters
}

/// `close` relates j to k exactly when it relates k to j.
pub open spec fn is_symmetric(close: Seq<Seq<bool>>) -> bool {
    forall|j: int, k: int|
        0 <= j < close.len() && 0 <= k < close.len() ==> #[trigger] close[j][k] == close[k][j]
}

proof fn lemma_clustered_prefix(cs: Seq<Seq<usize>>, c1: int, c2: int, y: usize)
    requires
        0 <= c1 <= c2 <= cs.len(),
        clustered(cs.take(c1), y),
    ensures
        clustered(cs.take(c2), y),
{
    let c = choose|c: int| 0 <= c < cs.take(c1).len() && #[trigger] cs.take(c1)[c].contains(y);
    assert(cs.take(c2)[c] == cs.take(c1)[c]);
}

/// The clusters are pairwise disjoint: an index lies in at most one of them.
pub proof fn lemma_clusters_disjoint(close: Seq<Seq<bool>>, cs: Seq<Seq<usize>>, c1: int, c2: int, x: usize)
    requires
        is_clustering_prefix(close, cs),
        0 <= c1 < c2 < cs.len(),
    ensures
        !(cs[c1].contains(x) && cs[c2].contains(x)),
{
    if cs[c1].contains(x) && cs[c2].contains(x) {
        let m = choose|m: int| 0 <= m < cs[c2].len() && cs[c2][m] == x;
        assert(x < close.len());
        assert(reachable_avoiding(close, cs.take(c2), cs[c2][0], x));
        let p = choose|p: Seq<usize>| #[trigger] is_walk(close, cs.take(c2), p) && p[0] == cs[c2][0] && p.last() == x;
        assert(p[p.len() - 1] == x);
        assert(!clustered(cs.take(c2), x));
        assert(cs.take(c2)[c1] == cs[c1]);
        assert(clustered(cs.take(c2), x));
    }
}

/// x can be reached from s by any walk along `close`.
pub open spec fn connected(close: Seq<Seq<bool>>, s: usize, x: usize) -> bool {
    reachable_avoiding(close, Seq::<Seq<usize>>::empty(), s, x)
}

/// A walk from the start of cluster c never enters an earlier cluster, when
/// `close` is symmetric.
proof fn lemma_walk_avoids_earlier(
    close: Seq<Seq<bool>>,
    cs: Seq<Seq<usize>>,
    c: int,
    p: Seq<usize>,
    m: int,
)
    requires
        is_square(close),
        is_symmetric(close),
        is_clustering_prefix(close, cs),
        0 <= c < cs.len(),
        is_walk(close, Seq::<Seq<usize>>::empty(), p),
        p[0] == cs[c][0],
        0 <= m < p.len(),
    ensures
        !clustered(cs.take(c), p[m]),
    decreases m,
{
    if m == 0 {
        if clustered(cs.take(c), p[0]) {
            let c1 = choose|c1: int| 0 <= c1 < cs.take(c).len() && #[trigger] cs.take(c)[c1].contains(p[0]);
            assert(cs.take(c)[c1] == cs[c1]);
            assert(cs[c].contains(cs[c][0]));
            lemma_clusters_disjoint(close, cs, c1, c, p[0]);
        }
    } else {
        lemma_walk_avoids_earlier(close, cs, c, p, m - 1);
        let y = p[m - 1];
        let z = p[m];
        assert(p[(m - 1) + 1] == z);
        assert(close[y as int][z as int]);
        assert(y < close.len() && z < close.len());
        if clustered(cs.take(c), z) {
            let c1 = choose|c1: int| 0 <= c1 < cs.take(c).len() && #[trigger] cs.take(c)[c1].contains(z);
            assert(cs.take(c)[c1] == cs[c1]);
            // z lies in the earlier cluster c1, so y, next to it, does too
            assert(reachable_avoiding(close, cs.take(c1), cs[c1][0], z));
            let q = choose|q: Seq<usize>| #[trigger] is_walk(close, cs.take(c1), q) && q[0] == cs[c1][0] && q.last() == z;
            assert(close[z as int][y as int]);
            assert(!clustered(cs.take(c1), y)) by {
                if clustered(cs.take(c1), y) {
                    lemma_clustered_prefix(cs, c1, c, y);
                }
            }
            lemma_walk_extend(close, cs.take(c1), q, y);
            assert(reachable_avoiding(close, cs.take(c1), cs[c1][0], y));
            assert(cs[c1].contains(y));
            assert(clustered(cs.take(c), y));
        }
    }
}

/// For a symmetric closeness relation the clusters are the connected
/// components: cluster c holds exactly the indices joined to its first index
/// by a chain of close pairs.
pub proof fn lemma_clusters_are_components(close: Seq<Seq<bool>>, cs: Seq<Seq<usize>>, c: int, x: usize)
    requires
        is_square(close),
        is_symmetric(close),
        is_clustering(close, cs),
        0 <= c < cs.len(),
        x < close.len(),
    ensures
        cs[c].contains(x) <==> connected(close, cs[c][0], x),
{
    let empty = Seq::<Seq<usize>>::empty();
    if cs[c].contains(x) {
        let p = choose|p: Seq<usize>| #[trigger] is_walk(close, cs.take(c), p) && p[0] == cs[c][0] && p.last() == x;
        assert(is_walk(close, empty, p));
    }
    if connected(close, cs[c][0], x) {
        let p = choose|p: Seq<usize>| #[trigger] is_walk(close, empty, p) && p[0] == cs[c][0] && p.last() == x;
        assert forall|m: int| 0 <= m < p.len() implies #[trigger] p[m] < close.len() && !clustered(cs.take(c), p[m]) by {
            lemma_walk_avoids_earlier(close, cs, c, p, m);
        }
        assert(is_walk(close, cs.take(c), p));
    }
}

} // verus!
