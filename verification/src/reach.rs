use vstd::prelude::*;

verus! {

/// `p` is a walk along `edges`: every consecutive pair is an edge.
pub open spec fn is_path<A>(edges: Set<(A, A)>, p: Seq<A>) -> bool {
    forall|t: int| 0 <= t < p.len() - 1 ==> edges.contains((#[trigger] p[t], p[t + 1]))
}

/// `b` can be reached from `a` along `edges` (in zero or more steps).
pub open spec fn reaches<A>(edges: Set<(A, A)>, a: A, b: A) -> bool {
    exists|p: Seq<A>|
        p.len() >= 1 && p[0] == a && p[p.len() - 1] == b && #[trigger] is_path(edges, p)
}

pub proof fn lemma_reaches_refl<A>(edges: Set<(A, A)>, a: A)
    ensures
        reaches(edges, a, a),
{
    let p = seq![a];
    assert(is_path(edges, p));
    assert(p.len() >= 1 && p[0] == a && p[p.len() - 1] == a);
}

pub proof fn lemma_reaches_step<A>(edges: Set<(A, A)>, a: A, b: A, c: A)
    requires
        reaches(edges, a, b),
        edges.contains((b, c)),
    ensures
        reaches(edges, a, c),
{
    let p = choose|p: Seq<A>|
        p.len() >= 1 && p[0] == a && p[p.len() - 1] == b && #[trigger] is_path(edges, p);
    let q = p.push(c);
    assert forall|t: int| 0 <= t < q.len() - 1 implies edges.contains((#[trigger] q[t], q[t + 1])) by {
        if t < p.len() - 1 {
            assert(q[t] == p[t] && q[t + 1] == p[t + 1]);
        } else {
            assert(q[t] == b && q[t + 1] == c);
        }
    }
    assert(q.len() >= 1 && q[0] == a && q[q.len() - 1] == c && is_path(edges, q));
}

proof fn lemma_path_stays_in_closed_set<A>(edges: Set<(A, A)>, m: Set<A>, p: Seq<A>)
    requires
        is_path(edges, p),
        p.len() >= 1,
        m.contains(p[0]),
        forall|x: A, y: A| m.contains(x) && edges.contains((x, y)) ==> m.contains(y),
    ensures
        m.contains(p[p.len() - 1]),
    decreases p.len(),
{
    if p.len() > 1 {
        assert(edges.contains((p[0], p[1])));
        let q = p.subrange(1, p.len() as int);
        assert forall|t: int| 0 <= t < q.len() - 1 implies edges.contains(
            (#[trigger] q[t], q[t + 1]),
        ) by {
            assert(q[t] == p[t + 1] && q[t + 1] == p[t + 2]);
        }
        lemma_path_stays_in_closed_set(edges, m, q);
    }
}

/// A set that contains `a` and is closed under following edges contains
/// everything reachable from `a`.
pub proof fn lemma_closed_set_contains_reachable<A>(edges: Set<(A, A)>, m: Set<A>, a: A, b: A)
    requires
        m.contains(a),
        forall|x: A, y: A| m.contains(x) && edges.contains((x, y)) ==> m.contains(y),
        reaches(edges, a, b),
    ensures
        m.contains(b),
{
    let p = choose|p: Seq<A>|
        p.len() >= 1 && p[0] == a && p[p.len() - 1] == b && #[trigger] is_path(edges, p);
    lemma_path_stays_in_closed_set(edges, m, p);
}

/// Reachability transports along a mapping that sends edges to edges.
pub proof fn lemma_reaches_map<A, B>(
    edges_a: Set<(A, A)>,
    edges_b: Set<(B, B)>,
    m: Map<A, B>,
    a1: A,
    a2: A,
)
    requires
        reaches(edges_a, a1, a2),
        m.dom().contains(a1),
        forall|x: A, y: A| edges_a.contains((x, y)) ==> m.dom().contains(x) && m.dom().contains(y),
        forall|x: A, y: A|
            edges_a.contains((x, y)) ==> edges_b.contains((#[trigger] m[x], #[trigger] m[y])),
    ensures
        reaches(edges_b, m[a1], m[a2]),
{
    let p = choose|p: Seq<A>|
        p.len() >= 1 && p[0] == a1 && p[p.len() - 1] == a2 && #[trigger] is_path(edges_a, p);
    let q = Seq::new(p.len(), |t: int| m[p[t]]);
    assert forall|t: int| 0 <= t < q.len() - 1 implies edges_b.contains(
        (#[trigger] q[t], q[t + 1]),
    ) by {
        assert(edges_a.contains((p[t], p[t + 1])));
    }
    assert(q.len() >= 1 && q[0] == m[a1] && q[q.len() - 1] == m[a2] && is_path(edges_b, q));
}


#[verifier::rlimit(100)]
pub proof fn lemma_reaches_trans<A>(edges: Set<(A, A)>, a: A, b: A, c: A)
    requires
        reaches(edges, a, b),
        reaches(edges, b, c),
    ensures
        reaches(edges, a, c),
{
    let p = choose|p: Seq<A>|
        p.len() >= 1 && p[0] == a && p[p.len() - 1] == b && #[trigger] is_path(edges, p);
    let q = choose|q: Seq<A>|
        q.len() >= 1 && q[0] == b && q[q.len() - 1] == c && #[trigger] is_path(edges, q);
    let pq = p + q.subrange(1, q.len() as int);
    assert forall|t: int| 0 <= t < pq.len() - 1 implies edges.contains(
        (#[trigger] pq[t], pq[t + 1]),
    ) by {
        if t < p.len() - 1 {
            assert(pq[t] == p[t] && pq[t + 1] == p[t + 1]);
        } else if t == p.len() - 1 {
            if q.len() > 1 {
                assert(pq[t] == b && pq[t + 1] == q[1]);
                assert(edges.contains((q[0], q[1])));
            }
        } else {
            assert(pq[t] == q[t - p.len() + 1] && pq[t + 1] == q[t - p.len() + 2]);
            assert(edges.contains((q[t - p.len() + 1], q[t - p.len() + 2])));
        }
    }
    assert(pq.len() >= 1 && pq[0] == a && pq[pq.len() - 1] == c && is_path(edges, pq));
}

/// Over a symmetric edge set, reachability is symmetric.
#[verifier::rlimit(100)]
pub proof fn lemma_reaches_symm<A>(edges: Set<(A, A)>, a: A, b: A)
    requires
        reaches(edges, a, b),
        forall|x: A, y: A| #[trigger] edges.contains((x, y)) ==> edges.contains((y, x)),
    ensures
        reaches(edges, b, a),
{
    let p = choose|p: Seq<A>|
        p.len() >= 1 && p[0] == a && p[p.len() - 1] == b && #[trigger] is_path(edges, p);
    let q = Seq::new(p.len(), |t: int| p[p.len() - 1 - t]);
    assert forall|t: int| 0 <= t < q.len() - 1 implies edges.contains(
        (#[trigger] q[t], q[t + 1]),
    ) by {
        let u = p.len() - 2 - t;
        assert(q[t] == p[u + 1] && q[t + 1] == p[u]);
        assert(edges.contains((p[u], p[u + 1])));
    }
    assert(q.len() >= 1 && q[0] == b && q[q.len() - 1] == a && is_path(edges, q));
}

/// The number of `false` entries of a boolean sequence: the work left for a
/// traversal that marks entries `true`.
pub closed spec fn count_false(s: Seq<bool>) -> nat
    decreases s.len(),
{
    if s.len() == 0 {
        0nat
    } else {
        count_false(s.drop_last()) + if s.last() {
            0nat
        } else {
            1nat
        }
    }
}

/// Pointwise implication never increases the count of `false` entries.
pub proof fn lemma_count_false_le(s1: Seq<bool>, s2: Seq<bool>)
    requires
        s1.len() == s2.len(),
        forall|t: int| 0 <= t < s1.len() ==> (s1[t] ==> s2[t]),
    ensures
        count_false(s2) <= count_false(s1),
    decreases s1.len(),
{
    if s1.len() > 0 {
        assert forall|t: int|
            0 <= t < s1.len() - 1 implies (s1.drop_last()[t] ==> s2.drop_last()[t]) by {
            assert(s1.drop_last()[t] == s1[t] && s2.drop_last()[t] == s2[t]);
        }
        lemma_count_false_le(s1.drop_last(), s2.drop_last());
    }
}

/// Pointwise implication with a strict witness strictly decreases it.
pub proof fn lemma_count_false_lt(s1: Seq<bool>, s2: Seq<bool>, w: int)
    requires
        s1.len() == s2.len(),
        forall|t: int| 0 <= t < s1.len() ==> (s1[t] ==> s2[t]),
        0 <= w < s1.len(),
        !s1[w],
        s2[w],
    ensures
        count_false(s2) < count_false(s1),
    decreases s1.len(),
{
    assert forall|t: int|
        0 <= t < s1.len() - 1 implies (s1.drop_last()[t] ==> s2.drop_last()[t]) by {
        assert(s1.drop_last()[t] == s1[t] && s2.drop_last()[t] == s2[t]);
    }
    if w == s1.len() - 1 {
        lemma_count_false_le(s1.drop_last(), s2.drop_last());
    } else {
        lemma_count_false_lt(s1.drop_last(), s2.drop_last(), w);
    }
}

/// Marking one `false` entry decreases the count by exactly one.
pub proof fn lemma_count_false_set(s: Seq<bool>, w: int)
    requires
        0 <= w < s.len(),
        !s[w],
    ensures
        count_false(s.update(w, true)) + 1 == count_false(s),
    decreases s.len(),
{
    if w == s.len() - 1 {
        assert(s.update(w, true).drop_last() =~= s.drop_last());
    } else {
        assert(s.update(w, true).drop_last() =~= s.drop_last().update(w, true));
        lemma_count_false_set(s.drop_last(), w);
    }
}

/// Reachability is preserved when the edge set grows.
pub proof fn lemma_reaches_subset<A>(e1: Set<(A, A)>, e2: Set<(A, A)>, a: A, b: A)
    requires
        reaches(e1, a, b),
        e1.subset_of(e2),
    ensures
        reaches(e2, a, b),
{
    let p = choose|p: Seq<A>|
        p.len() >= 1 && p[0] == a && p[p.len() - 1] == b && #[trigger] is_path(e1, p);
    assert forall|t: int| 0 <= t < p.len() - 1 implies e2.contains((#[trigger] p[t], p[t + 1])) by {
        assert(e1.contains((p[t], p[t + 1])));
    }
    assert(is_path(e2, p));
}
} // verus!
