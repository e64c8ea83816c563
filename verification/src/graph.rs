use vstd::prelude::*;
use vstd::set_lib::*;

verus! {

/// The sequences that a vector of vectors holds.
pub open spec fn lists_view(v: Seq<Vec<usize>>) -> Seq<Seq<usize>> {
    v.map_values(|w: Vec<usize>| w@)
}

/// `adj[a]` lists the successors of vertex `a`.
pub open spec fn edge(adj: Seq<Seq<usize>>, a: usize, b: usize) -> bool {
    (a as int) < adj.len() && adj[a as int].contains(b)
}

/// Every successor listed in `adj` is a vertex of `adj`.
pub open spec fn closed_graph(adj: Seq<Seq<usize>>) -> bool {
    forall|a: int, i: int|
        0 <= a < adj.len() && 0 <= i < adj[a].len() ==> (#[trigger] adj[a][i] as int) < adj.len()
}

/// `p` is a walk: a non-empty sequence of vertices, each one a successor of
/// the one before.
pub open spec fn is_walk(adj: Seq<Seq<usize>>, p: Seq<usize>) -> bool {
    &&& p.len() > 0
    &&& forall|i: int| 0 <= i < p.len() ==> (#[trigger] p[i] as int) < adj.len()
    &&& forall|i: int| 0 <= i < p.len() - 1 ==> #[trigger] edge(adj, p[i], p[i + 1])
}

/// Vertex `b` can be reached from vertex `a` (in zero or more steps).
pub open spec fn reaches(adj: Seq<Seq<usize>>, a: usize, b: usize) -> bool {
    exists|p: Seq<usize>| #[trigger] is_walk(adj, p) && p[0] == a && p.last() == b
}

/// Vertex `v` can be reached from one of `sources`.
pub open spec fn reached_from(adj: Seq<Seq<usize>>, sources: Seq<usize>, v: usize) -> bool {
    exists|i: int| 0 <= i < sources.len() && #[trigger] reaches(adj, sources[i], v)
}

/// The target of an edge of a closed graph is a vertex.
pub proof fn lemma_edge_target(adj: Seq<Seq<usize>>, a: usize, b: usize)
    requires
        closed_graph(adj),
        edge(adj, a, b),
    ensures
        (b as int) < adj.len(),
{
    let q = choose|q: int| 0 <= q < adj[a as int].len() && adj[a as int][q] == b;
    assert((adj[a as int][q] as int) < adj.len());
}

/// A vertex reaches itself.
pub proof fn lemma_reaches_refl(adj: Seq<Seq<usize>>, a: usize)
    requires
        (a as int) < adj.len(),
    ensures
        reaches(adj, a, a),
{
    let p = seq![a];
    assert(is_walk(adj, p));
}

/// A walk to `a` extends by an edge out of `a`.
pub proof fn lemma_reaches_step(adj: Seq<Seq<usize>>, s: usize, a: usize, b: usize)
    requires
        reaches(adj, s, a),
        edge(adj, a, b),
        (b as int) < adj.len(),
    ensures
        reaches(adj, s, b),
{
    let p = choose|p: Seq<usize>| #[trigger] is_walk(adj, p) && p[0] == s && p.last() == a;
    let q = p.push(b);
    assert(is_walk(adj, q)) by {
        assert forall|i: int| 0 <= i < q.len() - 1 implies #[trigger] edge(adj, q[i], q[i + 1]) by {
            if i < p.len() - 1 {
                assert(q[i] == p[i] && q[i + 1] == p[i + 1]);
            } else {
                assert(q[i] == p.last());
            }
        }
    }
    assert(q[0] == p[0]);
}

/// A set of vertices that holds the successors of its members holds every
/// vertex that one of its members reaches.
pub proof fn lemma_closed_walk(adj: Seq<Seq<usize>>, mark: Seq<bool>, p: Seq<usize>)
    requires
        mark.len() == adj.len(),
        is_walk(adj, p),
        mark[p[0] as int],
        forall|a: usize, b: usize|
            (a as int) < adj.len() && mark[a as int] && #[trigger] edge(adj, a, b) ==> mark[b as int],
    ensures
        mark[p.last() as int],
    decreases p.len(),
{
    if p.len() > 1 {
        let q = p.drop_last();
        assert(is_walk(adj, q)) by {
            assert forall|i: int| 0 <= i < q.len() - 1 implies #[trigger] edge(adj, q[i], q[i + 1]) by {
                assert(edge(adj, p[i], p[i + 1]));
            }
        }
        lemma_closed_walk(adj, mark, q);
        let i = p.len() - 2;
        assert(edge(adj, p[i], p[i + 1]));
        assert(q.last() == p[i]);
    }
}

/// Marks the vertices that can be reached from `sources`.
pub fn reach_from(adj: &Vec<Vec<usize>>, sources: &Vec<usize>) -> (mark: Vec<bool>)
    requires
        closed_graph(lists_view(adj@)),
        forall|i: int| 0 <= i < sources@.len() ==> (#[trigger] sources@[i] as int) < adj@.len(),
    ensures
        mark@.len() == adj@.len(),
        forall|v: usize|
            (v as int) < adj@.len() ==> (#[trigger] mark@[v as int] <==> reached_from(
                lists_view(adj@),
                sources@,
                v,
            )),
{
    let ghost g = lists_view(adj@);
    let n = adj.len();
    let mut mark: Vec<bool> = Vec::new();
    let mut k: usize = 0;
    while k < n
        invariant
            k <= n,
            n == adj@.len(),
            mark@.len() == k,
            forall|v: int| 0 <= v < k ==> !(#[trigger] mark@[v]),
        decreases n - k,
    {
        mark.push(false);
        k = k + 1;
    }
    let ghost mut marked: Set<usize> = Set::empty();
    let mut stack: Vec<usize> = Vec::new();
    let mut i: usize = 0;
    while i < sources.len()
        invariant
            g == lists_view(adj@),
            g.len() == n,
            n == adj@.len(),
            closed_graph(g),
            forall|j: int| 0 <= j < sources@.len() ==> (#[trigger] sources@[j] as int) < n,
            i <= sources@.len(),
            mark@.len() == n,
            marked.finite(),
            forall|v: usize| #[trigger] marked.contains(v) <==> ((v as int) < n && mark@[v as int]),
            forall|v: usize| (v as int) < n && #[trigger] mark@[v as int] ==> reached_from(g, sources@, v),
            forall|j: int| 0 <= j < i ==> #[trigger] mark@[sources@[j] as int],
            forall|j: int| 0 <= j < stack@.len() ==> (#[trigger] stack@[j] as int) < n && mark@[stack@[j] as int],
            forall|a: usize, b: usize|
                (a as int) < n && mark@[a as int] && !stack@.contains(a) && #[trigger] edge(g, a, b) ==> mark@[b as int],
            stack@.len() <= marked.len(),
        decreases sources@.len() - i,
    {
        let s = sources[i];
        if !mark[s] {
            proof {
                lemma_reaches_refl(g, s);
                assert(reaches(g, sources@[i as int], s));
                assert(!marked.contains(s));
            }
            let ghost m0 = mark@;
            let ghost sb = stack@;
            mark.set(s, true);
            stack.push(s);
            proof {
                marked = marked.insert(s);
                assert forall|v: usize| (v as int) < n && #[trigger] mark@[v as int] implies reached_from(g, sources@, v) by {
                    if v != s {
                        assert(m0[v as int]);
                    }
                }
                assert forall|a: usize, b: usize| (a as int) < n && mark@[a as int] && !stack@.contains(a) && #[trigger] edge(g, a, b) implies mark@[b as int] by {
                    if a == s {
                        assert(stack@[stack@.len() - 1] == s);
                    } else {
                        assert(m0[a as int]);
                        lemma_edge_target(g, a, b);
                        if b != s {
                            assert(mark@[b as int] == m0[b as int]);
                        }
                        assert(!sb.contains(a)) by {
                            if sb.contains(a) {
                                let q = choose|q: int| 0 <= q < sb.len() && sb[q] == a;
                                assert(stack@[q] == a);
                            }
                        }
                    }
                }
                assert forall|j: int| 0 <= j < stack@.len() implies (#[trigger] stack@[j] as int) < n && mark@[stack@[j] as int] by {
                    if j < stack@.len() - 1 {
                        assert(stack@[j] == sb[j]);
                    }
                }
            }
        }
        i = i + 1;
    }
    while stack.len() > 0
        invariant
            g == lists_view(adj@),
            g.len() == n,
            n == adj@.len(),
            closed_graph(g),
            mark@.len() == n,
            marked.finite(),
            forall|v: usize| #[trigger] marked.contains(v) <==> ((v as int) < n && mark@[v as int]),
            forall|v: usize| (v as int) < n && #[trigger] mark@[v as int] ==> reached_from(g, sources@, v),
            forall|j: int| 0 <= j < sources@.len() ==> (#[trigger] sources@[j] as int) < n,
            forall|j: int| 0 <= j < sources@.len() ==> #[trigger] mark@[sources@[j] as int],
            forall|j: int| 0 <= j < stack@.len() ==> (#[trigger] stack@[j] as int) < n && mark@[stack@[j] as int],
            forall|a: usize, b: usize|
                (a as int) < n && mark@[a as int] && !stack@.contains(a) && #[trigger] edge(g, a, b) ==> mark@[b as int],
            stack@.len() <= marked.len(),
        decreases 2 * (n - marked.len()) + stack@.len(),
    {
        let ghost st0 = stack@;
        let v = stack.pop().unwrap();
        proof {
            assert(st0[st0.len() - 1] == v);
            assert(stack@ == st0.drop_last());
            assert(marked.subset_of(Set::<usize>::range(0, n))) by {
                assert forall|x: usize| marked.contains(x) implies Set::<usize>::range(0, n).contains(x) by {}
            }
            range_set_properties::<usize>(0, n);
            lemma_len_subset(marked, Set::<usize>::range(0, n));
            assert forall|a: usize, b: usize| (a as int) < n && mark@[a as int] && a != v && !stack@.contains(a) && #[trigger] edge(g, a, b) implies mark@[b as int] by {
                if st0.contains(a) {
                    let q = choose|q: int| 0 <= q < st0.len() && st0[q] == a;
                    if q < st0.len() - 1 {
                        assert(stack@[q] == a);
                    }
                }
            }
        }
        let ghost before_len = 2 * (n - marked.len()) + stack@.len() + 1;
        let succ = &adj[v];
        let mut j: usize = 0;
        while j < succ.len()
            invariant
                g == lists_view(adj@),
                g.len() == n,
                n == adj@.len(),
                closed_graph(g),
                (v as int) < n,
                succ@ == g[v as int],
                j <= succ@.len(),
                mark@.len() == n,
                mark@[v as int],
                marked.finite(),
                marked.len() <= n,
                forall|x: usize| #[trigger] marked.contains(x) <==> ((x as int) < n && mark@[x as int]),
                forall|x: usize| (x as int) < n && #[trigger] mark@[x as int] ==> reached_from(g, sources@, x),
                forall|q: int| 0 <= q < sources@.len() ==> (#[trigger] sources@[q] as int) < n,
                forall|q: int| 0 <= q < sources@.len() ==> #[trigger] mark@[sources@[q] as int],
                forall|q: int| 0 <= q < stack@.len() ==> (#[trigger] stack@[q] as int) < n && mark@[stack@[q] as int],
                forall|a: usize, b: usize|
                    (a as int) < n && mark@[a as int] && a != v && !stack@.contains(a) && #[trigger] edge(g, a, b) ==> mark@[b as int],
                forall|q: int| 0 <= q < j ==> mark@[#[trigger] succ@[q] as int],
                stack@.len() <= marked.len(),
                2 * (n - marked.len()) + stack@.len() + 1 <= before_len,
            decreases succ@.len() - j,
        {
            let w = succ[j];
            proof {
                assert(g[v as int][j as int] == w);
                assert((w as int) < n);
            }
            if !mark[w] {
                proof {
                    assert(edge(g, v, w)) by {
                        assert(g[v as int][j as int] == w);
                    }
                    let i0 = choose|i0: int| 0 <= i0 < sources@.len() && #[trigger] reaches(g, sources@[i0], v);
                    lemma_reaches_step(g, sources@[i0], v, w);
                    assert(reaches(g, sources@[i0], w));
                    assert(!marked.contains(w));
                    assert(marked.insert(w).subset_of(Set::<usize>::range(0, n))) by {
                        assert forall|x: usize| marked.insert(w).contains(x) implies Set::<usize>::range(0, n).contains(x) by {}
                    }
                    range_set_properties::<usize>(0, n);
                    lemma_len_subset(marked.insert(w), Set::<usize>::range(0, n));
                }
                let ghost m0 = mark@;
                let ghost s0 = stack@;
                mark.set(w, true);
                stack.push(w);
                proof {
                    marked = marked.insert(w);
                    assert forall|x: usize| (x as int) < n && #[trigger] mark@[x as int] implies reached_from(g, sources@, x) by {
                        if x != w {
                            assert(m0[x as int]);
                        }
                    }
                    assert forall|q: int| 0 <= q < sources@.len() implies #[trigger] mark@[sources@[q] as int] by {
                        assert(m0[sources@[q] as int]);
                        assert((sources@[q] as int) < n);
                        if sources@[q] != w {
                            assert(mark@[sources@[q] as int] == m0[sources@[q] as int]);
                        }
                    }
                    assert forall|q: int| 0 <= q < stack@.len() implies (#[trigger] stack@[q] as int) < n && mark@[stack@[q] as int] by {
                        if q < s0.len() {
                            assert(stack@[q] == s0[q]);
                        }
                    }
                    assert forall|a: usize, b: usize| (a as int) < n && mark@[a as int] && a != v && !stack@.contains(a) && #[trigger] edge(g, a, b) implies mark@[b as int] by {
                        if a == w {
                            assert(stack@[stack@.len() - 1] == w);
                        } else {
                            assert(m0[a as int]);
                            lemma_edge_target(g, a, b);
                            if b != w {
                                assert(mark@[b as int] == m0[b as int]);
                            }
                            if s0.contains(a) {
                                let q = choose|q: int| 0 <= q < s0.len() && s0[q] == a;
                                assert(stack@[q] == a);
                            }
                        }
                    }
                    assert forall|q: int| 0 <= q < j implies mark@[#[trigger] succ@[q] as int] by {
                        assert(m0[succ@[q] as int]);
                    }
                }
            }
            j = j + 1;
        }
        proof {
            assert forall|a: usize, b: usize| (a as int) < n && mark@[a as int] && !stack@.contains(a) && #[trigger] edge(g, a, b) implies mark@[b as int] by {
                if a == v {
                    let q = choose|q: int| 0 <= q < g[a as int].len() && g[a as int][q] == b;
                    assert(succ@[q] == b);
                }
            }
        }
    }
    proof {
        assert forall|v: usize| (v as int) < n implies (#[trigger] mark@[v as int] <==> reached_from(g, sources@, v)) by {
            if reached_from(g, sources@, v) {
                let i0 = choose|i0: int| 0 <= i0 < sources@.len() && #[trigger] reaches(g, sources@[i0], v);
                let p = choose|p: Seq<usize>| #[trigger] is_walk(g, p) && p[0] == sources@[i0] && p.last() == v;
                lemma_closed_walk(g, mark@, p);
            }
        }
    }
    mark
}

/// An edge into a vertex that reaches `c` makes its source reach `c`.
pub proof fn lemma_reaches_prepend(adj: Seq<Seq<usize>>, a: usize, b: usize, c: usize)
    requires
        edge(adj, a, b),
        reaches(adj, b, c),
    ensures
        reaches(adj, a, c),
{
    let p = choose|p: Seq<usize>| #[trigger] is_walk(adj, p) && p[0] == b && p.last() == c;
    let q = seq![a] + p;
    assert(is_walk(adj, q)) by {
        assert forall|i: int| 0 <= i < q.len() implies (#[trigger] q[i] as int) < adj.len() by {
            if i > 0 {
                assert(q[i] == p[i - 1]);
            }
        }
        assert forall|i: int| 0 <= i < q.len() - 1 implies #[trigger] edge(adj, q[i], q[i + 1]) by {
            if i > 0 {
                assert(q[i] == p[i - 1] && q[i + 1] == p[i]);
                assert(edge(adj, p[i - 1], p[(i - 1) + 1]));
            } else {
                assert(q[0] == a && q[1] == p[0]);
            }
        }
    }
    assert(q[0] == a);
    assert(q.last() == p.last());
}

/// A set of `usize` values below `m` has at most `m` members.
pub proof fn lemma_bounded_set_len(s: Set<usize>, m: int)
    requires
        0 <= m,
        forall|x: usize| #[trigger] s.contains(x) ==> (x as int) < m,
    ensures
        s.finite(),
        s.len() <= m,
    decreases m,
{
    if m == 0 {
        assert(s =~= Set::<usize>::empty());
    } else {
        let last = (m - 1) as usize;
        let t = s.remove(last);
        lemma_bounded_set_len(t, m - 1);
        assert(s =~= t.insert(last) || s =~= t);
        if s.contains(last) {
            assert(s =~= t.insert(last));
        } else {
            assert(s =~= t);
        }
    }
}

} // verus!
