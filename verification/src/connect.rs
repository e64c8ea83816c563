use vstd::prelude::*;

use crate::fst::FstState;
use crate::fst::Tr;
use crate::fst::VectorFst;
use crate::graph::closed_graph;
use crate::graph::edge;
use crate::graph::is_walk;
use crate::graph::lemma_edge_target;
use crate::graph::lists_view;
use crate::graph::reach_from;
use crate::graph::reaches;

use crate::tr_ops::label_functional;

verus! {

/// The successor lists of the states of `fst`.
pub fn succ_lists(fst: &VectorFst) -> (r: Vec<Vec<usize>>)
    requires
        fst.wf(),
    ensures
        lists_view(r@) == fst.succ_graph(),
        closed_graph(fst.succ_graph()),
{
    let n = fst.states.len();
    let mut r: Vec<Vec<usize>> = Vec::new();
    let mut s: usize = 0;
    while s < n
        invariant
            s <= n,
            n == fst.n(),
            fst.wf(),
            r@.len() == s,
            forall|q: int| 0 <= q < s ==> (#[trigger] r@[q])@ == fst.succ_graph()[q],
        decreases n - s,
    {
        let trs = &fst.states[s].trs;
        let mut v: Vec<usize> = Vec::new();
        let mut i: usize = 0;
        while i < trs.len()
            invariant
                i <= trs@.len(),
                trs@ == fst.trs_of(s as int),
                v@ == trs@.subrange(0, i as int).map_values(|t: Tr| t.nextstate),
            decreases trs@.len() - i,
        {
            v.push(trs[i].nextstate);
            i = i + 1;
            proof {
                assert(v@ =~= trs@.subrange(0, i as int).map_values(|t: Tr| t.nextstate));
            }
        }
        proof {
            assert(trs@.subrange(0, trs@.len() as int) == trs@);
        }
        r.push(v);
        s = s + 1;
    }
    proof {
        assert(lists_view(r@) =~= fst.succ_graph());
        let g = fst.succ_graph();
        assert forall|a: int, i: int| 0 <= a < g.len() && 0 <= i < g[a].len() implies (#[trigger] g[a][i] as int) < g.len() by {
            assert(g[a][i] == fst.trs_of(a)[i].nextstate);
        }
    }
    r
}

/// State `s` has a transition to state `t`.
pub open spec fn has_tr_to(fst: VectorFst, s: usize, t: usize) -> bool {
    exists|j: int| 0 <= j < fst.trs_of(s as int).len() && #[trigger] fst.trs_of(s as int)[j].nextstate == t
}

/// An edge of the successor graph is a transition.
pub proof fn lemma_succ_edge(fst: VectorFst, s: usize, t: usize)
    ensures
        edge(fst.succ_graph(), s, t) <==> ((s as int) < fst.n() && has_tr_to(fst, s, t)),
{
    let g = fst.succ_graph();
    if edge(g, s, t) {
        let j = choose|j: int| 0 <= j < g[s as int].len() && g[s as int][j] == t;
        assert(fst.trs_of(s as int)[j].nextstate == t);
    }
    if (s as int) < fst.n() && has_tr_to(fst, s, t) {
        let j = choose|j: int| 0 <= j < fst.trs_of(s as int).len() && #[trigger] fst.trs_of(s as int)[j].nextstate == t;
        assert(g[s as int][j] == t);
    }
}

/// Reversing the edges of a graph reverses its walks.
pub proof fn lemma_reverse_reaches(g1: Seq<Seq<usize>>, g2: Seq<Seq<usize>>, a: usize, b: usize)
    requires
        g1.len() == g2.len(),
        forall|x: usize, y: usize| #[trigger] edge(g1, x, y) ==> edge(g2, y, x),
        reaches(g1, a, b),
    ensures
        reaches(g2, b, a),
{
    let p = choose|p: Seq<usize>| #[trigger] is_walk(g1, p) && p[0] == a && p.last() == b;
    let q = p.reverse();
    let l = p.len() as int;
    assert(is_walk(g2, q)) by {
        assert forall|i: int| 0 <= i < q.len() implies (#[trigger] q[i] as int) < g2.len() by {
            assert(q[i] == p[l - 1 - i]);
        }
        assert forall|i: int| 0 <= i < q.len() - 1 implies #[trigger] edge(g2, q[i], q[i + 1]) by {
            let k = l - 2 - i;
            assert(edge(g1, p[k], p[k + 1]));
            assert(q[i] == p[k + 1]);
            assert(q[i + 1] == p[k]);
        }
    }
    assert(q[0] == p[l - 1]);
    assert(q.last() == p[0]);
}

/// The predecessor lists of the states of `fst`.
pub fn pred_lists(fst: &VectorFst) -> (r: Vec<Vec<usize>>)
    requires
        fst.wf(),
    ensures
        r@.len() == fst.n(),
        closed_graph(lists_view(r@)),
        forall|x: usize, y: usize| #[trigger] edge(lists_view(r@), x, y) <==> edge(fst.succ_graph(), y, x),
{
    let n = fst.states.len();
    let mut r: Vec<Vec<usize>> = Vec::new();
    let mut k: usize = 0;
    while k < n
        invariant
            k <= n,
            r@.len() == k,
            forall|q: int| 0 <= q < k ==> (#[trigger] r@[q])@.len() == 0,
        decreases n - k,
    {
        r.push(Vec::new());
        k = k + 1;
    }
    let mut s: usize = 0;
    while s < n
        invariant
            s <= n,
            n == fst.n(),
            fst.wf(),
            r@.len() == n,
            forall|t: int, q: int| 0 <= t < n && 0 <= q < r@[t]@.len() ==> (#[trigger] r@[t]@[q] as int) < s,
            forall|t: usize, x: usize| (t as int) < n ==> (#[trigger] r@[t as int]@.contains(x) <==> ((x as int) < s && has_tr_to(*fst, x, t))),
        decreases n - s,
    {
        let trs = &fst.states[s].trs;
        let mut i: usize = 0;
        while i < trs.len()
            invariant
                i <= trs@.len(),
                s < n,
                n == fst.n(),
                fst.wf(),
                trs@ == fst.trs_of(s as int),
                r@.len() == n,
                forall|t: int, q: int| 0 <= t < n && 0 <= q < r@[t]@.len() ==> (#[trigger] r@[t]@[q] as int) <= s,
                forall|t: usize, x: usize| (t as int) < n ==> (#[trigger] r@[t as int]@.contains(x) <==> (((x as int) < s && has_tr_to(*fst, x, t))
                    || (x == s && exists|j: int| 0 <= j < i && #[trigger] trs@[j].nextstate == t))),
            decreases trs@.len() - i,
        {
            let t = trs[i].nextstate;
            proof {
                assert(fst.trs_of(s as int)[i as int].nextstate == t);
            }
            let ghost r0 = r@;
            r[t].push(s);
            i = i + 1;
            proof {
                assert forall|t2: int, q: int| 0 <= t2 < n && 0 <= q < r@[t2]@.len() implies (#[trigger] r@[t2]@[q] as int) <= s by {
                    if t2 != t as int || q < r0[t2]@.len() {
                        assert(r@[t2]@[q] == r0[t2]@[q]);
                    }
                }
                assert forall|t2: usize, x: usize| (t2 as int) < n implies (#[trigger] r@[t2 as int]@.contains(x) <==> (((x as int) < s && has_tr_to(*fst, x, t2))
                    || (x == s && exists|j: int| 0 <= j < i && #[trigger] trs@[j].nextstate == t2))) by {
                    if t2 == t {
                        assert(r@[t2 as int]@ == r0[t2 as int]@.push(s));
                        if r@[t2 as int]@.contains(x) && x != s {
                            let q = choose|q: int| 0 <= q < r@[t2 as int]@.len() && r@[t2 as int]@[q] == x;
                            assert(r0[t2 as int]@[q] == x);
                        }
                        if r0[t2 as int]@.contains(x) {
                            let q = choose|q: int| 0 <= q < r0[t2 as int]@.len() && r0[t2 as int]@[q] == x;
                            assert(r@[t2 as int]@[q] == x);
                        }
                        if x == s {
                            assert(r@[t2 as int]@[r0[t2 as int]@.len() as int] == s);
                            assert(trs@[i - 1].nextstate == t2);
                        }
                    } else {
                        assert(r@[t2 as int] == r0[t2 as int]);
                        if x == s && exists|j: int| 0 <= j < i && #[trigger] trs@[j].nextstate == t2 {
                            let j = choose|j: int| 0 <= j < i && #[trigger] trs@[j].nextstate == t2;
                            assert(j < i - 1);
                        }
                    }
                }
            }
        }
        s = s + 1;
        proof {
            assert forall|t: usize, x: usize| (t as int) < n implies (#[trigger] r@[t as int]@.contains(x) <==> ((x as int) < s && has_tr_to(*fst, x, t))) by {
                if x == s - 1 {
                    if has_tr_to(*fst, x, t) {
                        let j = choose|j: int| 0 <= j < fst.trs_of(x as int).len() && #[trigger] fst.trs_of(x as int)[j].nextstate == t;
                        assert(trs@[j].nextstate == t);
                    }
                }
            }
        }
    }
    proof {
        let g = lists_view(r@);
        assert forall|a: int, i: int| 0 <= a < g.len() && 0 <= i < g[a].len() implies (#[trigger] g[a][i] as int) < g.len() by {
            assert(g[a][i] == r@[a]@[i]);
        }
        assert forall|x: usize, y: usize| #[trigger] edge(g, x, y) <==> edge(fst.succ_graph(), y, x) by {
            lemma_succ_edge(*fst, y, x);
            if edge(g, x, y) {
                assert(r@[x as int]@.contains(y));
            }
            if edge(fst.succ_graph(), y, x) {
                assert(fst.trs_of(y as int).len() > 0);
                let j = choose|j: int| 0 <= j < fst.trs_of(y as int).len() && #[trigger] fst.trs_of(y as int)[j].nextstate == x;
                assert(fst.trs_of(y as int)[j].nextstate < n);
                assert(r@[x as int]@.contains(y));
            }
        }
    }
    r
}

/// `connect` keeps state `s`: it is accessible and coaccessible.
pub open spec fn kept(fst: VectorFst, s: usize) -> bool {
    fst.accessible(s) && fst.coaccessible(s)
}

/// Number of kept states below `m`: the new id of a kept state `m`.
pub open spec fn kept_before(fst: VectorFst, m: int) -> nat
    decreases m,
{
    if m <= 0 {
        0
    } else {
        kept_before(fst, m - 1) + (if kept(fst, (m - 1) as usize) { 1nat } else { 0nat })
    }
}

/// The transitions among `trs` that lead to kept states, renumbered.
pub open spec fn kept_trs(fst: VectorFst, trs: Seq<Tr>) -> Seq<Tr>
    decreases trs.len(),
{
    if trs.len() == 0 {
        Seq::empty()
    } else {
        let rest = kept_trs(fst, trs.drop_last());
        let t = trs.last();
        if (t.nextstate as int) < fst.n() && kept(fst, t.nextstate) {
            rest.push(
                Tr {
                    ilabel: t.ilabel,
                    olabel: t.olabel,
                    weight: t.weight,
                    nextstate: kept_before(fst, t.nextstate as int) as usize,
                },
            )
        } else {
            rest
        }
    }
}

/// `kept_before` grows with its bound.
pub proof fn lemma_kept_before_mono(fst: VectorFst, a: int, b: int)
    requires
        a <= b,
    ensures
        kept_before(fst, a) <= kept_before(fst, b),
    decreases b - a,
{
    if a < b {
        lemma_kept_before_mono(fst, a, b - 1);
    }
}

/// A kept state `a` below `m` gets an id below `kept_before(fst, m)`.
pub proof fn lemma_kept_before_lt(fst: VectorFst, a: usize, m: int)
    requires
        kept(fst, a),
        (a as int) < m,
    ensures
        kept_before(fst, a as int) < kept_before(fst, m),
{
    lemma_kept_before_mono(fst, a as int + 1, m);
}

/// Every id below `kept_before(fst, m)` is the id of a kept state below `m`.
pub proof fn lemma_kept_before_onto(fst: VectorFst, m: int, q: int)
    requires
        0 <= q < kept_before(fst, m),
        m <= usize::MAX + 1,
    ensures
        exists|s: usize| (s as int) < m && kept(fst, s) && kept_before(fst, s as int) == q,
    decreases m,
{
    if m > 0 {
        if q < kept_before(fst, m - 1) {
            lemma_kept_before_onto(fst, m - 1, q);
            let s = choose|s: usize| (s as int) < m - 1 && kept(fst, s) && kept_before(fst, s as int) == q;
        } else {
            let s = (m - 1) as usize;
            assert(kept(fst, s));
        }
    }
}

/// The number of kept states fits in the state count.
pub proof fn lemma_kept_before_le(fst: VectorFst, m: int)
    requires
        m >= 0,
    ensures
        kept_before(fst, m) <= m,
    decreases m,
{
    if m > 0 {
        lemma_kept_before_le(fst, m - 1);
    }
}

/// Every transition of `kept_trs` leads below `kept_before(fst, fst.n())`.
pub proof fn lemma_kept_trs_targets(fst: VectorFst, trs: Seq<Tr>)
    ensures
        forall|i: int| 0 <= i < kept_trs(fst, trs).len() ==> (#[trigger] kept_trs(fst, trs)[i].nextstate as int) < kept_before(fst, fst.n()),
    decreases trs.len(),
{
    if trs.len() > 0 {
        lemma_kept_trs_targets(fst, trs.drop_last());
        let t = trs.last();
        let r = kept_trs(fst, trs);
        let rest = kept_trs(fst, trs.drop_last());
        if (t.nextstate as int) < fst.n() && kept(fst, t.nextstate) {
            lemma_kept_before_lt(fst, t.nextstate, fst.n());
        }
        assert forall|i: int| 0 <= i < r.len() implies (#[trigger] r[i].nextstate as int) < kept_before(fst, fst.n()) by {
            if i < rest.len() {
                assert(r[i] == rest[i]);
            }
        }
    }
}

/// `f1` is `f0` without the states that are not both accessible and
/// coaccessible: the kept states keep their order, their final weights and
/// their transitions to kept states, renumbered.
pub open spec fn connect_result(f0: VectorFst, f1: VectorFst) -> bool {
    &&& f1.n() == kept_before(f0, f0.n())
    &&& forall|s: usize|
        (s as int) < f0.n() && kept(f0, s) ==> kept_before(f0, s as int) < f1.n() && f1.final_of(
            kept_before(f0, s as int) as int,
        ) == f0.final_of(s as int) && #[trigger] f1.trs_of(kept_before(f0, s as int) as int) == kept_trs(
            f0,
            f0.trs_of(s as int),
        )
    &&& f1.start == match f0.start {
        Some(st) => if kept(f0, st) {
            Some(kept_before(f0, st as int) as usize)
        } else {
            None
        },
        None => None,
    }
}

/// Removes the states that are not both accessible and coaccessible, keeping
/// the order of the remaining states and of their transitions.
pub fn connect(fst: &mut VectorFst)
    requires
        old(fst).wf(),
    ensures
        final(fst).wf(),
        connect_result(*old(fst), *final(fst)),
        final(fst).is_connected(),
{
    let ghost f0 = *fst;
    let n = fst.states.len();
    let succ = succ_lists(fst);
    let pred = pred_lists(fst);
    let mut starts: Vec<usize> = Vec::new();
    match fst.start {
        Some(st) => {
            starts.push(st);
        },
        None => {},
    }
    proof {
        assert(lists_view(succ@).len() == succ@.len());
        if f0.start is Some {
            assert(starts@ == seq![f0.start.unwrap()]);
            assert(starts@[0] == f0.start.unwrap());
            assert((f0.start.unwrap() as int) < n);
        } else {
            assert(starts@.len() == 0);
        }
    }
    let acc = reach_from(&succ, &starts);
    let mut finals: Vec<usize> = Vec::new();
    let mut s: usize = 0;
    while s < n
        invariant
            s <= n,
            n == f0.n(),
            *fst == f0,
            forall|q: int| 0 <= q < finals@.len() ==> (#[trigger] finals@[q] as int) < n,
            forall|t: usize| #[trigger] finals@.contains(t) <==> ((t as int) < s && f0.final_of(t as int) is Some),
        decreases n - s,
    {
        let ghost fb = finals@;
        if fst.states[s].final_weight.is_some() {
            finals.push(s);
        }
        s = s + 1;
        proof {
            assert forall|t: usize| #[trigger] finals@.contains(t) <==> ((t as int) < s && f0.final_of(t as int) is Some) by {
                if finals@.contains(t) {
                    let q = choose|q: int| 0 <= q < finals@.len() && finals@[q] == t;
                    if q < fb.len() {
                        assert(fb[q] == t);
                        assert(fb.contains(t));
                    }
                }
                if t < s - 1 && fb.contains(t) {
                    let q = choose|q: int| 0 <= q < fb.len() && fb[q] == t;
                    assert(finals@[q] == t);
                }
                if t == s - 1 && f0.final_of(t as int) is Some {
                    assert(finals@[finals@.len() - 1] == t);
                }
            }
            assert forall|q: int| 0 <= q < finals@.len() implies (#[trigger] finals@[q] as int) < n by {
                if q < fb.len() {
                    assert(finals@[q] == fb[q]);
                }
            }
        }
    }
    let coacc = reach_from(&pred, &finals);
    proof {
        let g = f0.succ_graph();
        let pg = lists_view(pred@);
        assert forall|v: usize| (v as int) < n implies (#[trigger] acc@[v as int] <==> f0.accessible(v)) by {
            if acc@[v as int] {
                let i0 = choose|i0: int| 0 <= i0 < starts@.len() && #[trigger] reaches(g, starts@[i0], v);
                assert(f0.start is Some);
                assert(starts@.len() == 1);
                assert(i0 == 0);
                assert(starts@[i0] == f0.start.unwrap());
            }
            if f0.accessible(v) {
                assert(starts@[0] == f0.start.unwrap());
                assert(reaches(g, starts@[0], v));
            }
        }
        assert forall|v: usize| (v as int) < n implies (#[trigger] coacc@[v as int] <==> f0.coaccessible(v)) by {
            if coacc@[v as int] {
                let i0 = choose|i0: int| 0 <= i0 < finals@.len() && #[trigger] reaches(pg, finals@[i0], v);
                assert(finals@.contains(finals@[i0]));
                lemma_reverse_reaches(pg, g, finals@[i0], v);
                assert(reaches(g, v, finals@[i0]));
            }
            if f0.coaccessible(v) {
                let t = choose|t: usize| (t as int) < f0.n() && f0.final_of(t as int) is Some && #[trigger] reaches(g, v, t);
                assert forall|x: usize, y: usize| #[trigger] edge(g, x, y) implies edge(pg, y, x) by {}
                lemma_reverse_reaches(g, pg, v, t);
                assert(finals@.contains(t));
                let i0 = choose|i0: int| 0 <= i0 < finals@.len() && finals@[i0] == t;
                assert(reaches(pg, finals@[i0], v));
            }
        }
    }
    let mut new_id: Vec<usize> = Vec::new();
    let mut count: usize = 0;
    let mut s: usize = 0;
    while s < n
        invariant
            s <= n,
            n == f0.n(),
            acc@.len() == n,
            coacc@.len() == n,
            forall|v: usize| (v as int) < n ==> (#[trigger] acc@[v as int] <==> f0.accessible(v)),
            forall|v: usize| (v as int) < n ==> (#[trigger] coacc@[v as int] <==> f0.coaccessible(v)),
            new_id@.len() == s,
            count == kept_before(f0, s as int),
            forall|q: usize| (q as int) < s && kept(f0, q) ==> #[trigger] new_id@[q as int] == kept_before(f0, q as int),
        decreases n - s,
    {
        proof {
            lemma_kept_before_le(f0, s as int);
        }
        if acc[s] && coacc[s] {
            new_id.push(count);
            count = count + 1;
        } else {
            new_id.push(n);
        }
        s = s + 1;
    }
    let mut states: Vec<FstState> = Vec::new();
    let mut s: usize = 0;
    while s < n
        invariant
            s <= n,
            n == f0.n(),
            *fst == f0,
            f0.wf(),
            acc@.len() == n,
            coacc@.len() == n,
            new_id@.len() == n,
            forall|v: usize| (v as int) < n ==> (#[trigger] acc@[v as int] <==> f0.accessible(v)),
            forall|v: usize| (v as int) < n ==> (#[trigger] coacc@[v as int] <==> f0.coaccessible(v)),
            forall|q: usize| (q as int) < n && kept(f0, q) ==> #[trigger] new_id@[q as int] == kept_before(f0, q as int),
            states@.len() == kept_before(f0, s as int),
            forall|q: usize| (q as int) < s && kept(f0, q) ==> #[trigger] states@[kept_before(f0, q as int) as int].final_weight == f0.final_of(q as int)
                && states@[kept_before(f0, q as int) as int].trs@ == kept_trs(f0, f0.trs_of(q as int)),
        decreases n - s,
    {
        if acc[s] && coacc[s] {
            let trs = &fst.states[s].trs;
            let mut v: Vec<Tr> = Vec::new();
            let mut i: usize = 0;
            while i < trs.len()
                invariant
                    i <= trs@.len(),
                    (s as int) < n,
                    n == f0.n(),
                    f0.wf(),
                    trs@ == f0.trs_of(s as int),
                    acc@.len() == n,
                    coacc@.len() == n,
                    new_id@.len() == n,
                    forall|w: usize| (w as int) < n ==> (#[trigger] acc@[w as int] <==> f0.accessible(w)),
                    forall|w: usize| (w as int) < n ==> (#[trigger] coacc@[w as int] <==> f0.coaccessible(w)),
                    forall|q: usize| (q as int) < n && kept(f0, q) ==> #[trigger] new_id@[q as int] == kept_before(f0, q as int),
                    v@ == kept_trs(f0, trs@.subrange(0, i as int)),
                decreases trs@.len() - i,
            {
                let t = trs[i];
                proof {
                    assert(trs@.subrange(0, i + 1).drop_last() =~= trs@.subrange(0, i as int));
                    assert(trs@.subrange(0, i + 1).last() == t);
                    assert((t.nextstate as int) < n);
                }
                if acc[t.nextstate] && coacc[t.nextstate] {
                    v.push(Tr { ilabel: t.ilabel, olabel: t.olabel, weight: t.weight, nextstate: new_id[t.nextstate] });
                }
                i = i + 1;
            }
            proof {
                assert(trs@.subrange(0, trs@.len() as int) == trs@);
            }
            proof {
                lemma_kept_before_mono(f0, s as int, s as int + 1);
            }
            let ghost st0 = states@;
            states.push(FstState { final_weight: fst.states[s].final_weight, trs: v });
            proof {
                assert forall|q: usize| (q as int) < s + 1 && kept(f0, q) implies #[trigger] states@[kept_before(f0, q as int) as int].final_weight == f0.final_of(q as int)
                    && states@[kept_before(f0, q as int) as int].trs@ == kept_trs(f0, f0.trs_of(q as int)) by {
                    if q < s {
                        lemma_kept_before_lt(f0, q, s as int);
                        assert(states@[kept_before(f0, q as int) as int] == st0[kept_before(f0, q as int) as int]);
                    }
                }
            }
        }
        s = s + 1;
    }
    let new_start = match fst.start {
        Some(st) => if acc[st] && coacc[st] { Some(new_id[st]) } else { None },
        None => None,
    };
    fst.states = states;
    fst.start = new_start;
    proof {
        assert(kept_before(f0, n as int) == fst.n());
        assert forall|q: usize| (q as int) < n && kept(f0, q) implies kept_before(f0, q as int) < fst.n() by {
            lemma_kept_before_lt(f0, q, n as int);
        }
        assert forall|q: int, i: int| 0 <= q < fst.n() && 0 <= i < fst.trs_of(q).len() implies (#[trigger] fst.trs_of(q)[i]).nextstate < fst.n() by {
            lemma_kept_before_onto(f0, n as int, q);
            let s0 = choose|s0: usize| (s0 as int) < n && kept(f0, s0) && kept_before(f0, s0 as int) == q;
            lemma_kept_trs_targets(f0, f0.trs_of(s0 as int));
            assert(fst.states@[kept_before(f0, s0 as int) as int].final_weight == f0.final_of(s0 as int));
            assert(fst.trs_of(q) == kept_trs(f0, f0.trs_of(s0 as int)));
        }
        if new_start is Some {
            lemma_kept_before_lt(f0, f0.start.unwrap(), n as int);
        }
        assert(connect_result(f0, *fst));
        lemma_connect_connected(f0, *fst);
    }
}

/// A transition to a kept state survives `kept_trs`, renumbered.
pub proof fn lemma_kept_trs_contains(fst: VectorFst, trs: Seq<Tr>, j: int)
    requires
        0 <= j < trs.len(),
        (trs[j].nextstate as int) < fst.n(),
        kept(fst, trs[j].nextstate),
    ensures
        exists|i: int|
            0 <= i < kept_trs(fst, trs).len() && (#[trigger] kept_trs(fst, trs)[i]).nextstate == kept_before(
                fst,
                trs[j].nextstate as int,
            ) && kept_trs(fst, trs)[i].ilabel == trs[j].ilabel,
    decreases trs.len(),
{
    let rest = kept_trs(fst, trs.drop_last());
    lemma_kept_before_le(fst, trs[j].nextstate as int);
    if j == trs.len() - 1 {
        let r = kept_trs(fst, trs);
        assert(trs.last() == trs[j]);
        assert(r[rest.len() as int].nextstate == kept_before(fst, trs[j].nextstate as int));
        assert(r[rest.len() as int].ilabel == trs[j].ilabel);
    } else {
        lemma_kept_trs_contains(fst, trs.drop_last(), j);
        let i = choose|i: int|
            0 <= i < rest.len() && (#[trigger] rest[i]).nextstate == kept_before(fst, trs.drop_last()[j].nextstate as int)
                && rest[i].ilabel == trs.drop_last()[j].ilabel;
        assert(kept_trs(fst, trs)[i] == rest[i]);
    }
}

/// Every transition of `kept_trs` comes from a transition to a kept state.
pub proof fn lemma_kept_trs_source(fst: VectorFst, trs: Seq<Tr>, i: int)
    requires
        0 <= i < kept_trs(fst, trs).len(),
    ensures
        exists|j: int|
            0 <= j < trs.len() && (trs[j].nextstate as int) < fst.n() && kept(fst, trs[j].nextstate) && kept_trs(
                fst,
                trs,
            )[i].nextstate == kept_before(fst, #[trigger] trs[j].nextstate as int) && kept_trs(fst, trs)[i].ilabel
                == trs[j].ilabel && kept_trs(fst, trs)[i].olabel == trs[j].olabel && kept_trs(fst, trs)[i].weight
                == trs[j].weight,
    decreases trs.len(),
{
    let rest = kept_trs(fst, trs.drop_last());
    if i < rest.len() {
        assert(kept_trs(fst, trs)[i] == rest[i]);
        lemma_kept_trs_source(fst, trs.drop_last(), i);
        let j = choose|j: int|
            0 <= j < trs.drop_last().len() && (trs.drop_last()[j].nextstate as int) < fst.n() && kept(
                fst,
                trs.drop_last()[j].nextstate,
            ) && rest[i].nextstate == kept_before(fst, #[trigger] trs.drop_last()[j].nextstate as int)
                && rest[i].ilabel == trs.drop_last()[j].ilabel && rest[i].olabel == trs.drop_last()[j].olabel
                && rest[i].weight == trs.drop_last()[j].weight;
        assert(trs.drop_last()[j] == trs[j]);
    } else {
        let j = trs.len() - 1;
        assert(trs[j] == trs.last());
        lemma_kept_before_le(fst, trs[j].nextstate as int);
        assert(kept_trs(fst, trs)[i].nextstate == kept_before(fst, trs[j].nextstate as int));
        assert(kept_trs(fst, trs)[i].ilabel == trs[j].ilabel);
    }
}

/// Walks compose.
pub proof fn lemma_reaches_trans(adj: Seq<Seq<usize>>, a: usize, b: usize, c: usize)
    requires
        reaches(adj, a, b),
        reaches(adj, b, c),
    ensures
        reaches(adj, a, c),
{
    let p = choose|p: Seq<usize>| #[trigger] is_walk(adj, p) && p[0] == a && p.last() == b;
    let q = choose|q: Seq<usize>| #[trigger] is_walk(adj, q) && q[0] == b && q.last() == c;
    let w = p + q.skip(1);
    assert(is_walk(adj, w)) by {
        assert forall|i: int| 0 <= i < w.len() implies (#[trigger] w[i] as int) < adj.len() by {
            if i < p.len() {
                assert(w[i] == p[i]);
            } else {
                assert(w[i] == q[i - p.len() + 1]);
            }
        }
        assert forall|i: int| 0 <= i < w.len() - 1 implies #[trigger] edge(adj, w[i], w[i + 1]) by {
            if i < p.len() - 1 {
                assert(w[i] == p[i] && w[i + 1] == p[i + 1]);
            } else if i == p.len() - 1 {
                assert(w[i] == p.last());
                assert(w[i + 1] == q[1]);
                assert(edge(adj, q[0], q[1]));
            } else {
                let k = i - p.len() + 1;
                assert(w[i] == q[k] && w[i + 1] == q[k + 1]);
            }
        }
    }
    if q.len() == 1 {
        assert(w =~= p);
    } else {
        assert(w.last() == q.last());
    }
    assert(w[0] == a);
}

/// The prefix of a walk up to a vertex is a walk, and so is the suffix from it.
pub proof fn lemma_walk_split(adj: Seq<Seq<usize>>, p: Seq<usize>, i: int)
    requires
        is_walk(adj, p),
        0 <= i < p.len(),
    ensures
        reaches(adj, p[0], p[i]),
        reaches(adj, p[i], p.last()),
{
    let a = p.take(i + 1);
    assert(is_walk(adj, a)) by {
        assert forall|j: int| 0 <= j < a.len() - 1 implies #[trigger] edge(adj, a[j], a[j + 1]) by {
            assert(edge(adj, p[j], p[j + 1]));
        }
    }
    assert(a[0] == p[0] && a.last() == p[i]);
    let b = p.skip(i);
    assert(is_walk(adj, b)) by {
        assert forall|j: int| 0 <= j < b.len() - 1 implies #[trigger] edge(adj, b[j], b[j + 1]) by {
            assert(edge(adj, p[i + j], p[i + j + 1]));
        }
    }
    assert(b[0] == p[i] && b.last() == p.last());
}

/// A kept state is the image of exactly one kept state.
pub proof fn lemma_kept_before_injective(fst: VectorFst, a: usize, b: usize)
    requires
        kept(fst, a),
        kept(fst, b),
        kept_before(fst, a as int) == kept_before(fst, b as int),
    ensures
        a == b,
{
    if a < b {
        lemma_kept_before_lt(fst, a, b as int);
    } else if b < a {
        lemma_kept_before_lt(fst, b, a as int);
    }
}

/// A walk of `f0` through kept states is, renumbered, a walk of the result
/// of `connect`.
pub proof fn lemma_map_walk(f0: VectorFst, f1: VectorFst, p: Seq<usize>)
    requires
        f0.wf(),
        connect_result(f0, f1),
        is_walk(f0.succ_graph(), p),
        forall|i: int| 0 <= i < p.len() ==> #[trigger] kept(f0, p[i]),
    ensures
        is_walk(f1.succ_graph(), Seq::new(p.len(), |i: int| kept_before(f0, p[i] as int) as usize)),
{
    let g0 = f0.succ_graph();
    let g1 = f1.succ_graph();
    f0.lemma_n_bound();
    lemma_kept_before_le(f0, f0.n());
    let q = Seq::new(p.len(), |i: int| kept_before(f0, p[i] as int) as usize);
    assert forall|i: int| 0 <= i < q.len() implies (#[trigger] q[i] as int) < g1.len() by {
        assert(kept(f0, p[i]));
        assert((p[i] as int) < g0.len());
        lemma_kept_before_lt(f0, p[i], f0.n());
        assert(kept_before(f0, p[i] as int) < f1.n());
    }
    assert forall|i: int| 0 <= i < q.len() - 1 implies #[trigger] edge(g1, q[i], q[i + 1]) by {
        let a = p[i];
        let b = p[i + 1];
        assert(edge(g0, p[i], p[i + 1]));
        lemma_succ_edge(f0, a, b);
        let j = choose|j: int| 0 <= j < f0.trs_of(a as int).len() && #[trigger] f0.trs_of(a as int)[j].nextstate == b;
        assert(kept(f0, a) && kept(f0, b));
        lemma_edge_target(g0, a, b);
        lemma_kept_trs_contains(f0, f0.trs_of(a as int), j);
        let kt = kept_trs(f0, f0.trs_of(a as int));
        let i2 = choose|i2: int| 0 <= i2 < kt.len() && (#[trigger] kt[i2]).nextstate == kept_before(f0, b as int);
        assert((a as int) < f0.n());
        assert(f1.trs_of(kept_before(f0, a as int) as int) == kt);
        lemma_kept_before_lt(f0, a, f0.n());
        lemma_kept_before_lt(f0, b, f0.n());
        assert(q[i] as int == kept_before(f0, a as int));
        assert(q[i + 1] as int == kept_before(f0, b as int));
        assert(f1.trs_of(q[i] as int)[i2].nextstate == q[i + 1]);
        lemma_succ_edge(f1, q[i], q[i + 1]);
    }
}

/// Every state that `connect` keeps is accessible and coaccessible in the
/// result.
pub proof fn lemma_connect_connected(f0: VectorFst, f1: VectorFst)
    requires
        f0.wf(),
        connect_result(f0, f1),
    ensures
        f1.is_connected(),
{
    let g0 = f0.succ_graph();
    let g1 = f1.succ_graph();
    f0.lemma_n_bound();
    lemma_kept_before_le(f0, f0.n());
    assert forall|q: usize| (q as int) < f1.n() implies #[trigger] f1.accessible(q) && f1.coaccessible(q) by {
        lemma_kept_before_onto(f0, f0.n(), q as int);
        let s = choose|s: usize| (s as int) < f0.n() && kept(f0, s) && kept_before(f0, s as int) == q;
        let st = f0.start.unwrap();
        let p = choose|p: Seq<usize>| #[trigger] is_walk(g0, p) && p[0] == st && p.last() == s;
        let t = choose|t: usize| (t as int) < f0.n() && f0.final_of(t as int) is Some && #[trigger] reaches(g0, s, t);
        // the walk from the start to s stays among kept states
        assert forall|i: int| 0 <= i < p.len() implies #[trigger] kept(f0, p[i]) by {
            lemma_walk_split(g0, p, i);
            lemma_reaches_trans(g0, p[i], s, t);
            lemma_edge_or_vertex(g0, p, i);
        }
        assert(kept(f0, st)) by {
            assert(kept(f0, p[0]));
        }
        lemma_map_walk(f0, f1, p);
        let pm = Seq::new(p.len(), |i: int| kept_before(f0, p[i] as int) as usize);
        assert(f1.start == Some(kept_before(f0, st as int) as usize));
        assert(pm[0] == kept_before(f0, st as int) as usize);
        assert(pm.last() == q);
        assert(reaches(g1, pm[0], q));
        // the walk from s to the final state t stays among kept states
        let w = choose|w: Seq<usize>| #[trigger] is_walk(g0, w) && w[0] == s && w.last() == t;
        assert forall|i: int| 0 <= i < w.len() implies #[trigger] kept(f0, w[i]) by {
            lemma_walk_split(g0, w, i);
            assert(reaches(g0, st, s));
            lemma_reaches_trans(g0, st, s, w[i]);
            lemma_edge_or_vertex(g0, w, i);
        }
        lemma_map_walk(f0, f1, w);
        let wm = Seq::new(w.len(), |i: int| kept_before(f0, w[i] as int) as usize);
        assert(wm[0] == q);
        let tm = wm.last();
        assert(kept(f0, w.last()));
        lemma_edge_or_vertex(g0, w, w.len() - 1);
        lemma_kept_before_lt(f0, t, f0.n());
        assert(tm as int == kept_before(f0, t as int));
        assert(f1.trs_of(kept_before(f0, t as int) as int) == kept_trs(f0, f0.trs_of(t as int)));
        assert(f1.final_of(tm as int) == f0.final_of(t as int));
        assert(reaches(g1, q, tm));
    }
}

/// A vertex of a walk is a vertex of the graph.
pub proof fn lemma_edge_or_vertex(adj: Seq<Seq<usize>>, p: Seq<usize>, i: int)
    requires
        is_walk(adj, p),
        0 <= i < p.len(),
    ensures
        (p[i] as int) < adj.len(),
{
}

/// `connect` keeps an acyclic fst acyclic.
pub proof fn lemma_connect_acyclic(f0: VectorFst, f1: VectorFst)
    requires
        f0.wf(),
        connect_result(f0, f1),
        f0.acyclic(),
    ensures
        f1.acyclic(),
{
    let r0 = choose|r: spec_fn(usize) -> nat| #[trigger] f0.is_ranking(r);
    f0.lemma_n_bound();
    lemma_kept_before_le(f0, f0.n());
    let src = |q: usize| choose|s: usize| (s as int) < f0.n() && kept(f0, s) && kept_before(f0, s as int) == q;
    let r1 = |q: usize| r0(src(q));
    assert forall|q: usize, i: int|
        (q as int) < f1.n() && 0 <= i < f1.trs_at(q).len() implies r1(#[trigger] f1.trs_at(q)[i].nextstate) < r1(q) by {
        lemma_kept_before_onto(f0, f0.n(), q as int);
        let s = src(q);
        assert((s as int) < f0.n() && kept(f0, s) && kept_before(f0, s as int) == q);
        assert(f1.trs_of(kept_before(f0, s as int) as int) == kept_trs(f0, f0.trs_of(s as int)));
        let kt = kept_trs(f0, f0.trs_of(s as int));
        assert(f1.trs_at(q) == kt);
        lemma_kept_trs_source(f0, f0.trs_of(s as int), i);
        let j = choose|j: int|
            0 <= j < f0.trs_of(s as int).len() && (f0.trs_of(s as int)[j].nextstate as int) < f0.n() && kept(
                f0,
                f0.trs_of(s as int)[j].nextstate,
            ) && kt[i].nextstate == kept_before(f0, #[trigger] f0.trs_of(s as int)[j].nextstate as int);
        let t = f0.trs_of(s as int)[j].nextstate;
        let q2 = kt[i].nextstate;
        lemma_kept_before_lt(f0, t, f0.n());
        lemma_kept_before_onto(f0, f0.n(), q2 as int);
        let s2 = src(q2);
        assert((s2 as int) < f0.n() && kept(f0, s2) && kept_before(f0, s2 as int) == q2);
        lemma_kept_before_injective(f0, s2, t);
        assert(f0.trs_at(s)[j].nextstate == t);
    }
    assert(f1.is_ranking(r1));
}

/// `kept_trs` keeps input labels apart that were apart.
pub proof fn lemma_kept_trs_distinct(fst: VectorFst, trs: Seq<Tr>)
    requires
        forall|i: int, j: int| #![trigger trs[i], trs[j]] 0 <= i < j < trs.len() ==> trs[i].ilabel != trs[j].ilabel,
    ensures
        forall|i: int, j: int|
            #![trigger kept_trs(fst, trs)[i], kept_trs(fst, trs)[j]]
            0 <= i < j < kept_trs(fst, trs).len() ==> kept_trs(fst, trs)[i].ilabel != kept_trs(fst, trs)[j].ilabel,
    decreases trs.len(),
{
    if trs.len() > 0 {
        let u = trs.drop_last();
        assert forall|i: int, j: int| #![trigger u[i], u[j]] 0 <= i < j < u.len() implies u[i].ilabel != u[j].ilabel by {
            assert(u[i] == trs[i] && u[j] == trs[j]);
        }
        lemma_kept_trs_distinct(fst, u);
        let r = kept_trs(fst, u);
        let k = kept_trs(fst, trs);
        assert forall|i: int, j: int| #![trigger k[i], k[j]] 0 <= i < j < k.len() implies k[i].ilabel != k[j].ilabel by {
            if j < r.len() {
                assert(k[i] == r[i] && k[j] == r[j]);
            } else {
                assert(k[i] == r[i]);
                assert(k[j].ilabel == trs.last().ilabel);
                lemma_kept_trs_source(fst, u, i);
                let a = choose|a: int|
                    0 <= a < u.len() && (u[a].nextstate as int) < fst.n() && kept(fst, u[a].nextstate) && r[i].nextstate
                        == kept_before(fst, #[trigger] u[a].nextstate as int) && r[i].ilabel == u[a].ilabel;
                assert(u[a] == trs[a]);
                assert(trs[trs.len() - 1] == trs.last());
            }
        }
    }
}

/// `kept_trs` keeps transitions with one input label equal.
pub proof fn lemma_kept_trs_functional(fst: VectorFst, trs: Seq<Tr>)
    requires
        label_functional(trs),
    ensures
        label_functional(kept_trs(fst, trs)),
{
    let k = kept_trs(fst, trs);
    assert forall|i: int, j: int| #![trigger k[i], k[j]] 0 <= i < k.len() && 0 <= j < k.len() && k[i].ilabel == k[j].ilabel implies k[i]
        == k[j] by {
        lemma_kept_trs_source(fst, trs, i);
        lemma_kept_trs_source(fst, trs, j);
        let a = choose|a: int|
            0 <= a < trs.len() && (trs[a].nextstate as int) < fst.n() && kept(fst, trs[a].nextstate) && k[i].nextstate
                == kept_before(fst, #[trigger] trs[a].nextstate as int) && k[i].ilabel == trs[a].ilabel && k[i].olabel
                == trs[a].olabel && k[i].weight == trs[a].weight;
        let b = choose|b: int|
            0 <= b < trs.len() && (trs[b].nextstate as int) < fst.n() && kept(fst, trs[b].nextstate) && k[j].nextstate
                == kept_before(fst, #[trigger] trs[b].nextstate as int) && k[j].ilabel == trs[b].ilabel && k[j].olabel
                == trs[b].olabel && k[j].weight == trs[b].weight;
        assert(trs[a] == trs[b]);
    }
}

/// `connect` keeps an acceptor with transition weights `One` so.
pub proof fn lemma_connect_plain(f0: VectorFst, f1: VectorFst)
    requires
        f0.wf(),
        connect_result(f0, f1),
        f0.is_acceptor(),
        f0.has_unit_weights(),
    ensures
        f1.is_acceptor(),
        f1.has_unit_weights(),
{
    f0.lemma_n_bound();
    lemma_kept_before_le(f0, f0.n());
    assert forall|q: usize, i: int| (q as int) < f1.n() && 0 <= i < f1.trs_at(q).len() implies (#[trigger] f1.trs_at(q)[i]).ilabel
        == f1.trs_at(q)[i].olabel && f1.trs_at(q)[i].weight == crate::fst::WEIGHT_ONE by {
        lemma_kept_before_onto(f0, f0.n(), q as int);
        let s = choose|s: usize| (s as int) < f0.n() && kept(f0, s) && kept_before(f0, s as int) == q;
        assert(f1.trs_of(kept_before(f0, s as int) as int) == kept_trs(f0, f0.trs_of(s as int)));
        let t = f0.trs_at(s);
        assert(f1.trs_at(q) == kept_trs(f0, t));
        lemma_kept_trs_source(f0, t, i);
        let a = choose|a: int|
            0 <= a < t.len() && (t[a].nextstate as int) < f0.n() && kept(f0, t[a].nextstate) && kept_trs(f0, t)[i].nextstate
                == kept_before(f0, #[trigger] t[a].nextstate as int) && kept_trs(f0, t)[i].ilabel == t[a].ilabel
                && kept_trs(f0, t)[i].olabel == t[a].olabel && kept_trs(f0, t)[i].weight == t[a].weight;
        assert(f0.trs_at(s)[a] == t[a]);
    }
}

/// `connect` keeps a deterministic fst deterministic.
pub proof fn lemma_connect_det(f0: VectorFst, f1: VectorFst)
    requires
        f0.wf(),
        connect_result(f0, f1),
        f0.is_i_deterministic(),
    ensures
        f1.is_i_deterministic(),
{
    f0.lemma_n_bound();
    lemma_kept_before_le(f0, f0.n());
    assert forall|q: usize, i: int, j: int|
        #![trigger f1.trs_at(q)[i], f1.trs_at(q)[j]]
        (q as int) < f1.n() && 0 <= i < j < f1.trs_at(q).len() implies f1.trs_at(q)[i].ilabel != f1.trs_at(q)[j].ilabel by {
        lemma_kept_before_onto(f0, f0.n(), q as int);
        let s = choose|s: usize| (s as int) < f0.n() && kept(f0, s) && kept_before(f0, s as int) == q;
        assert(f1.trs_of(kept_before(f0, s as int) as int) == kept_trs(f0, f0.trs_of(s as int)));
        let t = f0.trs_at(s);
        assert forall|a: int, b: int| #![trigger t[a], t[b]] 0 <= a < b < t.len() implies t[a].ilabel != t[b].ilabel by {
            assert(f0.trs_at(s)[a] == t[a]);
        }
        lemma_kept_trs_distinct(f0, t);
        assert(f1.trs_at(q) == kept_trs(f0, t));
    }
}

} // verus!
