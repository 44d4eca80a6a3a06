//! Grouping agents by style with single linkage: two agents share a cluster
//! exactly when a chain of close pairs joins them.

use vstd::prelude::*;

verus! {

/// The rows of a closeness matrix: `m[a][b]` holds when agents `a` and `b`
/// are within the distance threshold of each other.
pub open spec fn rows(close: Seq<Vec<bool>>) -> Seq<Seq<bool>> {
    close.map_values(|r: Vec<bool>| r@)
}

/// Whether the matrix is square.
pub open spec fn is_square(close: Seq<Vec<bool>>) -> bool {
    forall|a: int| 0 <= a < close.len() ==> (#[trigger] close[a])@.len() == close.len()
}

/// Whether agents `a` and `b` are a close pair. The pair is read from the
/// upper triangle, `m[min][max]`.
pub open spec fn adjacent(m: Seq<Seq<bool>>, a: int, b: int) -> bool {
    (a < b && m[a][b]) || (b < a && m[b][a])
}

/// Whether step `k` of `p` joins a close pair.
pub open spec fn step_ok(m: Seq<Seq<bool>>, p: Seq<int>, k: int) -> bool {
    adjacent(m, p[k], p[k + 1])
}

/// Whether `p` is a chain of agents below `n`, each close to the next.
pub open spec fn is_path(m: Seq<Seq<bool>>, n: int, p: Seq<int>) -> bool {
    &&& p.len() >= 1
    &&& forall|k: int| 0 <= k < p.len() ==> 0 <= #[trigger] p[k] < n
    &&& forall|k: int| 0 <= k < p.len() - 1 ==> #[trigger] step_ok(m, p, k)
}

/// Whether a chain of close pairs joins agents `a` and `b`.
pub open spec fn linked(m: Seq<Seq<bool>>, n: int, a: int, b: int) -> bool {
    exists|p: Seq<int>| #[trigger] is_path(m, n, p) && p[0] == a && p.last() == b
}

/// One more than the largest label, or zero for no labels.
pub open spec fn label_bound(lab: Seq<nat>) -> nat
    decreases lab.len(),
{
    if lab.len() == 0 {
        0
    } else {
        let b = label_bound(lab.drop_last());
        if lab.last() + 1 > b {
            (lab.last() + 1) as nat
        } else {
            b
        }
    }
}

/// The number of clusters among the labels `lab`.
pub open spec fn cluster_count(lab: Seq<nat>) -> nat {
    label_bound(lab)
}

/// Whether `lab` labels the clusters of the first `n` agents: two agents share
/// a label exactly when a chain of close pairs joins them, and clusters are
/// numbered from 0 in the order of their first agent.
pub open spec fn is_component_labelling(m: Seq<Seq<bool>>, n: int, lab: Seq<nat>) -> bool {
    &&& lab.len() == n
    &&& forall|a: int, b: int|
        0 <= a < n && 0 <= b < n ==> (lab[a] == lab[b] <==> #[trigger] linked(m, n, a, b))
    &&& forall|j: int| 0 <= j < n ==> #[trigger] lab[j] <= label_bound(lab.take(j))
}

/// Whether one of the first `k` labels of `g` is `c`.
pub open spec fn has_label(g: Seq<nat>, k: int, c: nat) -> bool {
    exists|a: int| 0 <= a < k && g[a] == c
}

pub(crate) proof fn lemma_bound_above(lab: Seq<nat>)
    ensures
        forall|k: int| 0 <= k < lab.len() ==> lab[k] < label_bound(lab),
        lab.len() > 0 ==> exists|k: int| 0 <= k < lab.len() && lab[k] + 1 == label_bound(lab),
    decreases lab.len(),
{
    if lab.len() > 0 {
        let p = lab.drop_last();
        lemma_bound_above(p);
        if p.len() > 0 {
            let k = choose|k: int| 0 <= k < p.len() && p[k] + 1 == label_bound(p);
            assert(lab[k] == p[k]);
        }
        assert(lab[lab.len() - 1] == lab.last());
        assert forall|k: int| 0 <= k < lab.len() implies lab[k] < label_bound(lab) by {
            if k < p.len() {
                assert(lab[k] == p[k]);
            }
        }
    }
}

proof fn lemma_path_single(m: Seq<Seq<bool>>, n: int, a: int)
    requires
        0 <= a < n,
    ensures
        linked(m, n, a, a),
{
    let p = seq![a];
    assert(is_path(m, n, p));
}

proof fn lemma_path_push(m: Seq<Seq<bool>>, n: int, a: int, x: int, y: int)
    requires
        linked(m, n, a, x),
        0 <= y < n,
        adjacent(m, x, y),
    ensures
        linked(m, n, a, y),
{
    let p = choose|p: Seq<int>| #[trigger] is_path(m, n, p) && p[0] == a && p.last() == x;
    let q = p.push(y);
    assert forall|k: int| 0 <= k < q.len() - 1 implies #[trigger] step_ok(m, q, k) by {
        if k < p.len() - 1 {
            assert(step_ok(m, p, k));
        }
    }
    assert(is_path(m, n, q));
}

proof fn lemma_linked_symmetric(m: Seq<Seq<bool>>, n: int, a: int, b: int)
    requires
        linked(m, n, a, b),
    ensures
        linked(m, n, b, a),
{
    let p = choose|p: Seq<int>| #[trigger] is_path(m, n, p) && p[0] == a && p.last() == b;
    let q = p.reverse();
    assert forall|k: int| 0 <= k < q.len() - 1 implies #[trigger] step_ok(m, q, k) by {
        let j = p.len() - 2 - k;
        assert(step_ok(m, p, j));
        assert(q[k] == p[j + 1]);
        assert(q[k + 1] == p[j]);
    }
    assert(is_path(m, n, q));
    assert(q[0] == b);
    assert(q.last() == a);
}

proof fn lemma_linked_transitive(m: Seq<Seq<bool>>, n: int, a: int, b: int, c: int)
    requires
        linked(m, n, a, b),
        linked(m, n, b, c),
    ensures
        linked(m, n, a, c),
{
    let p = choose|p: Seq<int>| #[trigger] is_path(m, n, p) && p[0] == a && p.last() == b;
    let q = choose|q: Seq<int>| #[trigger] is_path(m, n, q) && q[0] == b && q.last() == c;
    let r = p + q.skip(1);
    assert forall|k: int| 0 <= k < r.len() implies 0 <= #[trigger] r[k] < n by {
        if k < p.len() {
            assert(r[k] == p[k]);
        } else {
            assert(r[k] == q[k - p.len() + 1]);
        }
    }
    assert forall|k: int| 0 <= k < r.len() - 1 implies #[trigger] step_ok(m, r, k) by {
        if k < p.len() - 1 {
            assert(step_ok(m, p, k));
        } else {
            let j = k - p.len() + 1;
            assert(step_ok(m, q, j));
            assert(r[k + 1] == q[j + 1]);
            if k == p.len() - 1 {
                assert(r[k] == q[0]);
            } else {
                assert(r[k] == q[j]);
            }
        }
    }
    assert(is_path(m, n, r));
    if q.len() == 1 {
        assert(r =~= p);
    } else {
        assert(r.last() == q.last());
    }
}

/// Labels that close pairs always share stay the same along any chain.
proof fn lemma_path_keeps_label(m: Seq<Seq<bool>>, n: int, asg: Seq<Option<usize>>, p: Seq<int>)
    requires
        is_path(m, n, p),
        asg.len() == n,
        forall|x: int, z: int|
            0 <= x < n && 0 <= z < n && asg[x] is Some && #[trigger] adjacent(m, x, z) ==> asg[z]
                == asg[x],
        asg[p[0]] is Some,
    ensures
        asg[p.last()] == asg[p[0]],
    decreases p.len(),
{
    if p.len() > 1 {
        let q = p.drop_last();
        assert(forall|k: int| 0 <= k < q.len() ==> #[trigger] q[k] == p[k]);
        assert forall|k: int| 0 <= k < q.len() - 1 implies #[trigger] step_ok(m, q, k) by {
            assert(step_ok(m, p, k));
        }
        lemma_path_keeps_label(m, n, asg, q);
        let k = p.len() - 2;
        assert(step_ok(m, p, k));
        assert(adjacent(m, p[k], p[k + 1]));
    }
}

} // verus!

verus! {

/// Labels as natural numbers.
pub open spec fn nat_labels(v: Seq<usize>) -> Seq<nat> {
    v.map_values(|x: usize| x as nat)
}

/// The number of agents not yet given a cluster.
pub open spec fn open_count(s: Seq<Option<usize>>) -> nat
    decreases s.len(),
{
    if s.len() == 0 {
        0
    } else {
        open_count(s.drop_last()) + if s.last() is None {
            1nat
        } else {
            0nat
        }
    }
}

proof fn lemma_open_count_assign(s: Seq<Option<usize>>, k: int, v: usize)
    requires
        0 <= k < s.len(),
        s[k] is None,
    ensures
        open_count(s.update(k, Some(v))) + 1 == open_count(s),
    decreases s.len(),
{
    let t = s.update(k, Some(v));
    if k < s.len() - 1 {
        assert(t.drop_last() =~= s.drop_last().update(k, Some(v)));
        lemma_open_count_assign(s.drop_last(), k, v);
    } else {
        assert(t.drop_last() =~= s.drop_last());
    }
}

proof fn lemma_bound_at_most(lab: Seq<nat>, c: nat)
    requires
        forall|k: int| 0 <= k < lab.len() ==> lab[k] < c,
    ensures
        label_bound(lab) <= c,
    decreases lab.len(),
{
    if lab.len() > 0 {
        lemma_bound_at_most(lab.drop_last(), c);
        assert(lab[lab.len() - 1] == lab.last());
    }
}

/// Whether agents `a` and `b` are a close pair, read from the upper triangle.
fn close_pair(close: &Vec<Vec<bool>>, a: usize, b: usize) -> (r: bool)
    requires
        is_square(close@),
        a < close@.len(),
        b < close@.len(),
    ensures
        r == adjacent(rows(close@), a as int, b as int),
{
    if a < b {
        assert(close@[a as int]@.len() == close@.len());
        close[a][b]
    } else if b < a {
        assert(close@[b as int]@.len() == close@.len());
        close[b][a]
    } else {
        false
    }
}

/// The cluster label of each agent and the number of clusters, given which
/// pairs of agents are close (only `close[a][b]` with `a < b` is read). Two
/// agents share a cluster exactly when a chain of close pairs joins them;
/// clusters are numbered in the order of their first agent. Each cluster is
/// found by a depth-first search from its first agent.
pub fn assign_clusters(close: &Vec<Vec<bool>>) -> (r: (Vec<usize>, usize))
    requires
        is_square(close@),
    ensures
        is_component_labelling(rows(close@), close@.len() as int, nat_labels(r.0@)),
        r.1 == cluster_count(nat_labels(r.0@)),
{
    let n = close.len();
    let ghost m = rows(close@);
    let mut asg: Vec<Option<usize>> = Vec::new();
    let mut k: usize = 0;
    while k < n
        invariant
            k <= n,
            asg@.len() == k,
            forall|a: int| 0 <= a < k ==> asg@[a] is None,
        decreases n - k,
    {
        asg.push(None);
        k = k + 1;
    }
    let ghost mut leaders: Seq<int> = seq![];
    let mut count: usize = 0;
    let mut i: usize = 0;
    while i < n
        invariant
            n == close@.len(),
            is_square(close@),
            m == rows(close@),
            asg@.len() == n,
            i <= n,
            leaders.len() == count,
            count <= i,
            forall|l: int|
                0 <= l < count ==> 0 <= #[trigger] leaders[l] < i && asg@[leaders[l]] == Some(
                    l as usize,
                ) && leaders[l] >= l,
            forall|l1: int, l2: int|
                0 <= l1 < l2 < count ==> #[trigger] leaders[l1] < #[trigger] leaders[l2],
            forall|x: int|
                0 <= x < n && #[trigger] asg@[x] is Some ==> asg@[x]->0 < count && leaders[asg@[
                    x]->0 as int] <= x && linked(m, n as int, leaders[asg@[x]->0 as int], x),
            forall|x: int| 0 <= x < i ==> #[trigger] asg@[x] is Some,
            forall|x: int, z: int|
                0 <= x < n && 0 <= z < n && asg@[x] is Some && #[trigger] adjacent(m, x, z)
                    ==> asg@[z] == asg@[x],
        decreases n - i,
    {
        if asg[i].is_none() {
            let c = count;
            proof {
                lemma_path_single(m, n as int, i as int);
                lemma_open_count_assign(asg@, i as int, c);
            }
            asg.set(i, Some(c));
            let ghost lead = leaders.push(i as int);
            let mut stack: Vec<usize> = Vec::new();
            stack.push(i);
            assert(stack@[0] == i);
            while stack.len() > 0
                invariant
                    n == close@.len(),
                    is_square(close@),
                    m == rows(close@),
                    asg@.len() == n,
                    i < n,
                    c == count,
                    count <= i,
                    lead.len() == c + 1,
                    lead[c as int] == i,
                    forall|l: int|
                        0 <= l <= c ==> 0 <= #[trigger] lead[l] <= i && asg@[lead[l]] == Some(
                            l as usize,
                        ) && lead[l] >= l,
                    forall|l1: int, l2: int|
                        0 <= l1 < l2 <= c ==> #[trigger] lead[l1] < #[trigger] lead[l2],
                    forall|x: int|
                        0 <= x < n && #[trigger] asg@[x] is Some ==> asg@[x]->0 <= c && lead[asg@[
                            x]->0 as int] <= x && linked(m, n as int, lead[asg@[x]->0 as int], x),
                    forall|x: int| 0 <= x <= i ==> #[trigger] asg@[x] is Some,
                    forall|t: int|
                        0 <= t < stack@.len() ==> #[trigger] stack@[t] < n && asg@[stack@[t] as int]
                            == Some(c),
                    forall|x: int, z: int|
                        0 <= x < n && 0 <= z < n && asg@[x] is Some && #[trigger] adjacent(m, x, z)
                            ==> asg@[z] == asg@[x] || (asg@[x] == Some(c) && stack@.contains(
                            x as usize,
                        )),
                decreases 2 * open_count(asg@) + stack@.len(),
            {
                let ghost measure = 2 * open_count(asg@) + stack@.len();
                let ghost full = stack@;
                let x = stack.pop().unwrap();
                proof {
                    assert(stack@ =~= full.drop_last());
                    assert(full.last() == x);
                    assert forall|x1: int|
                        0 <= x1 < n && #[trigger] full.contains(x1 as usize) && x1 != x implies stack@.contains(x1 as usize) by {
                        let t = choose|t: int| 0 <= t < full.len() && full[t] == x1 as usize;
                        assert(t < full.len() - 1);
                        assert(stack@[t] == x1 as usize);
                    }
                    assert(asg@[x as int] == Some(c)) by {
                        assert(full[full.len() - 1] == x);
                    }
                }
                let mut y: usize = 0;
                while y < n
                    invariant
                        n == close@.len(),
                        is_square(close@),
                        m == rows(close@),
                        asg@.len() == n,
                        i < n,
                        x < n,
                        asg@[x as int] == Some(c),
                        c == count,
                        count <= i,
                        lead.len() == c + 1,
                        lead[c as int] == i,
                        y <= n,
                        2 * open_count(asg@) + stack@.len() < measure,
                        forall|l: int|
                            0 <= l <= c ==> 0 <= #[trigger] lead[l] <= i && asg@[lead[l]] == Some(
                                l as usize,
                            ) && lead[l] >= l,
                        forall|l1: int, l2: int|
                            0 <= l1 < l2 <= c ==> #[trigger] lead[l1] < #[trigger] lead[l2],
                        forall|x1: int|
                            0 <= x1 < n && #[trigger] asg@[x1] is Some ==> asg@[x1]->0 <= c
                                && lead[asg@[x1]->0 as int] <= x1 && linked(
                                m,
                                n as int,
                                lead[asg@[x1]->0 as int],
                                x1,
                            ),
                        forall|x1: int| 0 <= x1 <= i ==> #[trigger] asg@[x1] is Some,
                        forall|t: int|
                            0 <= t < stack@.len() ==> #[trigger] stack@[t] < n && asg@[stack@[t] as int]
                                == Some(c),
                        forall|x1: int, z: int|
                            0 <= x1 < n && 0 <= z < n && asg@[x1] is Some && #[trigger] adjacent(
                                m,
                                x1,
                                z,
                            ) ==> asg@[z] == asg@[x1] || (asg@[x1] == Some(c) && (stack@.contains(
                                x1 as usize,
                            ) || x1 == x)),
                        forall|z: int| 0 <= z < y && #[trigger] adjacent(m, x as int, z) ==> asg@[z]
                            == Some(c),
                    decreases n - y,
                {
                    let near = close_pair(close, x, y);
                    if near && asg[y].is_none() {
                        proof {
                            lemma_path_push(m, n as int, i as int, x as int, y as int);
                            lemma_open_count_assign(asg@, y as int, c);
                        }
                        let ghost before = stack@;
                        asg.set(y, Some(c));
                        stack.push(y);
                        proof {
                            assert forall|x1: int, z: int|
                                0 <= x1 < n && 0 <= z < n && asg@[x1] is Some && #[trigger] adjacent(
                                    m,
                                    x1,
                                    z,
                                ) implies asg@[z] == asg@[x1] || (asg@[x1] == Some(c) && (
                                stack@.contains(x1 as usize) || x1 == x)) by {
                                if x1 == y {
                                    assert(stack@[stack@.len() - 1] == y);
                                } else if stack@.len() > 1 && before.contains(x1 as usize) {
                                    let t = choose|t: int|
                                        0 <= t < before.len() && before[t] == x1 as usize;
                                    assert(stack@[t] == x1 as usize);
                                }
                            }
                        }
                    } else if near {
                        assert(adjacent(m, y as int, x as int));
                    }
                    y = y + 1;
                }
            }
            proof {
                leaders = lead;
            }
            count = count + 1;
        }
        i = i + 1;
    }
    let mut labels: Vec<usize> = Vec::new();
    let mut k: usize = 0;
    while k < n
        invariant
            k <= n,
            asg@.len() == n,
            forall|x: int| 0 <= x < n ==> #[trigger] asg@[x] is Some,
            labels@.len() == k,
            forall|a: int| 0 <= a < k ==> labels@[a] == asg@[a]->0,
        decreases n - k,
    {
        let v = match asg[k] {
            Some(v) => v,
            None => 0,
        };
        labels.push(v);
        k = k + 1;
    }
    let ghost lab = nat_labels(labels@);
    proof {
        assert forall|a: int, b: int| 0 <= a < n && 0 <= b < n implies (lab[a] == lab[b]
            <==> #[trigger] linked(m, n as int, a, b)) by {
            assert(asg@[a] is Some && asg@[b] is Some);
            if lab[a] == lab[b] {
                let l = asg@[a]->0 as int;
                lemma_linked_symmetric(m, n as int, leaders[l], a);
                lemma_linked_transitive(m, n as int, a, leaders[l], b);
            }
            if linked(m, n as int, a, b) {
                let p = choose|p: Seq<int>| #[trigger] is_path(m, n as int, p) && p[0] == a && p.last() == b;
                lemma_path_keeps_label(m, n as int, asg@, p);
            }
        }
        assert forall|j: int| 0 <= j < n implies #[trigger] lab[j] <= label_bound(lab.take(j)) by {
            assert(asg@[j] is Some);
            let l = asg@[j]->0 as int;
            let t = lab.take(j);
            lemma_bound_above(t);
            if leaders[l] < j {
                assert(t[leaders[l]] == l);
            } else if l > 0 {
                assert(leaders[l - 1] < leaders[l]);
                assert(asg@[leaders[l - 1]] is Some);
                assert(t[leaders[l - 1]] == l - 1);
            }
        }
        assert forall|a: int| 0 <= a < lab.len() implies lab[a] < count by {
            assert(asg@[a] is Some);
        }
        lemma_bound_at_most(lab, count as nat);
        lemma_bound_above(lab);
        if count > 0 {
            assert(asg@[leaders[count - 1]] is Some);
            assert(lab[leaders[count - 1]] == count - 1);
        }
    }
    (labels, count)
}

} // verus!

verus! {

proof fn lemma_labels_cover(lab: Seq<nat>, k: int)
    requires
        0 <= k <= lab.len(),
        forall|j: int| 0 <= j < lab.len() ==> #[trigger] lab[j] <= label_bound(lab.take(j)),
    ensures
        forall|c: nat| c < label_bound(lab.take(k)) ==> #[trigger] has_label(lab, k, c),
    decreases k,
{
    if k == 0 {
        assert(lab.take(0) =~= seq![]);
    } else {
        lemma_labels_cover(lab, k - 1);
        let t = lab.take(k);
        assert(t.drop_last() =~= lab.take(k - 1));
        assert(t.last() == lab[k - 1]);
        assert(lab[k - 1] <= label_bound(lab.take(k - 1)));
        assert forall|c: nat| c < label_bound(t) implies #[trigger] has_label(lab, k, c) by {
            if c < label_bound(lab.take(k - 1)) {
                assert(has_label(lab, k - 1, c));
                let a = choose|a: int| 0 <= a < k - 1 && lab[a] == c;
                assert(0 <= a < k && lab[a] == c);
            } else {
                assert(lab[k - 1] == c);
            }
        }
    }
}

/// Agents that are a close pair share a cluster, however far apart they
/// stand in the list: for `a < b` with `close[a][b]`, the labels of `a` and
/// `b` are equal. So agents in different clusters are never a close pair.
pub proof fn law_close_agents_share_a_cluster(
    close: Seq<Vec<bool>>,
    lab: Seq<nat>,
    a: int,
    b: int,
)
    requires
        is_square(close),
        is_component_labelling(rows(close), close.len() as int, lab),
        0 <= a < b < close.len(),
        close[a]@[b],
    ensures
        lab[a] == lab[b],
{
    let m = rows(close);
    let n = close.len() as int;
    assert(m[a] == close[a]@);
    assert(adjacent(m, a, b));
    lemma_path_single(m, n, a);
    lemma_path_push(m, n, a, a, b);
    assert(linked(m, n, a, b));
}

/// An agent that is close to no other agent is alone in its cluster.
pub proof fn law_isolated_agent_is_alone(close: Seq<Vec<bool>>, lab: Seq<nat>, a: int, b: int)
    requires
        is_square(close),
        is_component_labelling(rows(close), close.len() as int, lab),
        0 <= a < close.len(),
        0 <= b < close.len(),
        a != b,
        forall|x: int| 0 <= x < a ==> !(#[trigger] close[x]@[a]),
        forall|y: int| a < y < close.len() ==> !close[a]@[y],
    ensures
        lab[a] != lab[b],
{
    let m = rows(close);
    let n = close.len() as int;
    if lab[a] == lab[b] {
        assert(linked(m, n, a, b));
        let p = choose|p: Seq<int>| #[trigger] is_path(m, n, p) && p[0] == a && p.last() == b;
        assert(p.len() > 1);
        assert(step_ok(m, p, 0));
        let y = p[1];
        if y < a {
            assert(m[y] == close[y]@);
            assert(close[y]@[a]);
        } else {
            assert(m[a] == close[a]@);
        }
    }
}

/// The clustering does not depend on the order of the chain: agents share a
/// cluster with each other symmetrically and transitively, and a chain of
/// close pairs keeps every agent along it in the same cluster.
pub proof fn law_chains_stay_in_one_cluster(m: Seq<Seq<bool>>, n: int, lab: Seq<nat>, p: Seq<int>)
    requires
        is_component_labelling(m, n, lab),
        is_path(m, n, p),
    ensures
        forall|k: int| 0 <= k < p.len() ==> lab[#[trigger] p[k]] == lab[p[0]],
{
    assert forall|k: int| 0 <= k < p.len() implies lab[#[trigger] p[k]] == lab[p[0]] by {
        let q = p.take(k + 1);
        assert forall|j: int| 0 <= j < q.len() - 1 implies #[trigger] step_ok(m, q, j) by {
            assert(step_ok(m, p, j));
        }
        assert(forall|j: int| 0 <= j < q.len() ==> #[trigger] q[j] == p[j]);
        assert(is_path(m, n, q));
        assert(linked(m, n, p[0], p[k]));
    }
}

/// Every cluster label below the cluster count is held by some agent, every
/// agent's label is below it, and there are at most as many clusters as
/// agents (none for no agents, at least one otherwise).
pub proof fn law_clusters_are_labelled_densely(m: Seq<Seq<bool>>, n: int, lab: Seq<nat>)
    requires
        is_component_labelling(m, n, lab),
    ensures
        forall|c: nat| c < cluster_count(lab) ==> #[trigger] has_label(lab, n, c),
        forall|a: int| 0 <= a < n ==> lab[a] < cluster_count(lab),
        cluster_count(lab) <= n,
        cluster_count(lab) == 0 <==> n == 0,
        n > 0 ==> lab[0] == 0,
{
    if n > 0 {
        assert(lab.take(0) =~= seq![]);
        assert(lab[0] <= label_bound(lab.take(0)));
    }
    assert(lab.take(n) =~= lab);
    lemma_labels_cover(lab, n);
    lemma_bound_above(lab);
    lemma_bound_le(lab, n);
    assert(lab.take(n) =~= lab);
    if n == 0 {
        assert(lab =~= seq![]);
    } else {
        assert(lab[0] < label_bound(lab));
    }
}

proof fn lemma_bound_le(lab: Seq<nat>, k: int)
    requires
        0 <= k <= lab.len(),
        forall|j: int| 0 <= j < lab.len() ==> #[trigger] lab[j] <= label_bound(lab.take(j)),
    ensures
        label_bound(lab.take(k)) <= k,
    decreases k,
{
    if k == 0 {
        assert(lab.take(0) =~= seq![]);
    } else {
        lemma_bound_le(lab, k - 1);
        let t = lab.take(k);
        assert(t.drop_last() =~= lab.take(k - 1));
        assert(t.last() == lab[k - 1]);
        assert(lab[k - 1] <= label_bound(lab.take(k - 1)));
    }
}

} // verus!
