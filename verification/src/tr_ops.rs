use vstd::prelude::*;

use crate::connect::lemma_succ_edge;
use crate::fst::copy_trs;
use crate::fst::Tr;
use crate::fst::VectorFst;
use crate::graph::edge;
use crate::graph::is_walk;
use crate::graph::reaches;

verus! {

/// The order in which transitions are sorted: by input label, or, when
/// `full`, by input label, then output label, then destination.
pub open spec fn tr_key_lt(a: Tr, b: Tr, full: bool) -> bool {
    if full {
        ||| a.ilabel < b.ilabel
        ||| a.ilabel == b.ilabel && a.olabel < b.olabel
        ||| a.ilabel == b.ilabel && a.olabel == b.olabel && a.nextstate < b.nextstate
    } else {
        a.ilabel < b.ilabel
    }
}

/// `r` with `x` inserted after every transition that does not come after
/// `x` in the key order.
pub open spec fn insert_sorted(r: Seq<Tr>, x: Tr, full: bool) -> Seq<Tr>
    decreases r.len(),
{
    if r.len() == 0 {
        seq![x]
    } else if tr_key_lt(x, r.last(), full) {
        insert_sorted(r.drop_last(), x, full).push(r.last())
    } else {
        r.push(x)
    }
}

/// `s` stably sorted by the key order: transitions with equal keys keep
/// their relative order.
pub open spec fn sort_trs(s: Seq<Tr>, full: bool) -> Seq<Tr>
    decreases s.len(),
{
    if s.len() == 0 {
        Seq::empty()
    } else {
        insert_sorted(sort_trs(s.drop_last(), full), s.last(), full)
    }
}

/// `s` without the transitions equal to the one just before them.
pub open spec fn dedup_trs(s: Seq<Tr>) -> Seq<Tr>
    decreases s.len(),
{
    if s.len() == 0 {
        Seq::empty()
    } else {
        let r = dedup_trs(s.drop_last());
        if s.len() > 1 && s[s.len() - 2] == s.last() {
            r
        } else {
            r.push(s.last())
        }
    }
}

/// Whether `a` comes strictly before `b` in the key order.
fn tr_key_less(a: &Tr, b: &Tr, full: bool) -> (r: bool)
    ensures
        r == tr_key_lt(*a, *b, full),
{
    if full {
        a.ilabel < b.ilabel || (a.ilabel == b.ilabel && a.olabel < b.olabel) || (a.ilabel == b.ilabel
            && a.olabel == b.olabel && a.nextstate < b.nextstate)
    } else {
        a.ilabel < b.ilabel
    }
}

/// Sorts `v` stably by the key order (insertion sort).
pub fn sort_tr_vec(v: &mut Vec<Tr>, full: bool)
    ensures
        final(v)@ == sort_trs(old(v)@, full),
{
    let ghost s0 = v@;
    let n = v.len();
    let mut i: usize = 0;
    proof {
        assert(v@.subrange(0, 0) =~= sort_trs(s0.take(0), full));
        assert(v@.subrange(0, n as int) =~= s0.subrange(0, n as int));
    }
    while i < n
        invariant
            n == s0.len(),
            v@.len() == n,
            i <= n,
            v@.subrange(0, i as int) == sort_trs(s0.take(i as int), full),
            v@.subrange(i as int, n as int) == s0.subrange(i as int, n as int),
        decreases n - i,
    {
        let x = v[i];
        let ghost p = v@.subrange(0, i as int);
        proof {
            assert(x == s0[i as int]) by {
                assert(v@.subrange(i as int, n as int)[0] == s0.subrange(i as int, n as int)[0]);
            }
            assert(s0.take(i + 1).drop_last() =~= s0.take(i as int));
            assert(s0.take(i + 1).last() == x);
            assert(insert_sorted(v@.subrange(0, i as int), x, full) + v@.subrange(i + 1, i + 1)
                =~= insert_sorted(p, x, full));
            assert forall|k: int| 0 <= k < n - i - 1 implies #[trigger] v@.subrange(i + 1, n as int)[k]
                == s0.subrange(i + 1, n as int)[k] by {
                assert(v@.subrange(i as int, n as int)[k + 1] == s0.subrange(i as int, n as int)[k + 1]);
            }
            assert(v@.subrange(i + 1, n as int) =~= s0.subrange(i + 1, n as int));
        }
        let mut j: usize = i;
        while j > 0 && tr_key_less(&x, &v[j - 1], full)
            invariant
                n == s0.len(),
                v@.len() == n,
                j <= i < n,
                v@[j as int] == x,
                v@.subrange(i + 1, n as int) == s0.subrange(i + 1, n as int),
                insert_sorted(v@.subrange(0, j as int), x, full) + v@.subrange(j + 1, i + 1)
                    == insert_sorted(p, x, full),
            decreases j,
        {
            let ghost w = v@;
            let y = v[j - 1];
            v.set(j - 1, x);
            v.set(j, y);
            proof {
                assert(w.subrange(0, j as int).drop_last() =~= v@.subrange(0, j - 1));
                assert(w.subrange(0, j as int).last() == y);
                assert(v@.subrange(j as int, i + 1) =~= seq![y] + w.subrange(j + 1, i + 1));
                assert(insert_sorted(w.subrange(0, j as int), x, full) == insert_sorted(
                    v@.subrange(0, j - 1),
                    x,
                    full,
                ).push(y));
                assert(insert_sorted(v@.subrange(0, j - 1), x, full) + v@.subrange(j as int, i + 1)
                    =~= insert_sorted(w.subrange(0, j as int), x, full) + w.subrange(j + 1, i + 1));
                assert(v@.subrange(i + 1, n as int) =~= w.subrange(i + 1, n as int));
            }
            j = j - 1;
        }
        proof {
            let q = v@.subrange(0, j as int);
            if j == 0 {
                assert(q =~= Seq::<Tr>::empty());
                assert(insert_sorted(q, x, full) =~= seq![x]);
            } else {
                assert(q.last() == v@[j - 1]);
                assert(insert_sorted(q, x, full) =~= q.push(x));
            }
            assert(v@.subrange(0, i + 1) =~= insert_sorted(q, x, full) + v@.subrange(j + 1, i + 1));
            assert(v@.subrange(i + 1, n as int) =~= s0.subrange(i + 1, n as int));
        }
        i = i + 1;
    }
    proof {
        assert(v@.subrange(0, n as int) =~= v@);
        assert(s0.take(n as int) =~= s0);
    }
}

/// `v` without the transitions equal to the one just before them.
pub fn dedup_tr_vec(v: &Vec<Tr>) -> (r: Vec<Tr>)
    ensures
        r@ == dedup_trs(v@),
{
    let mut r: Vec<Tr> = Vec::new();
    let mut i: usize = 0;
    while i < v.len()
        invariant
            i <= v@.len(),
            r@ == dedup_trs(v@.take(i as int)),
        decreases v@.len() - i,
    {
        let ghost t = v@.take(i + 1);
        proof {
            assert(t.drop_last() =~= v@.take(i as int));
            assert(t.last() == v@[i as int]);
            if i > 0 {
                assert(t[t.len() - 2] == v@[i - 1]);
            }
        }
        if i == 0 || v[i - 1] != v[i] {
            r.push(v[i]);
        }
        i = i + 1;
    }
    proof {
        assert(v@.take(v@.len() as int) =~= v@);
    }
    r
}

/// Sorts the transitions of every state by input label, stably.
pub fn tr_sort_ilabel(fst: &mut VectorFst)
    ensures
        final(fst).n() == old(fst).n(),
        final(fst).start == old(fst).start,
        forall|s: usize| (s as int) < old(fst).n() ==> #[trigger] final(fst).final_at(s) == old(fst).final_at(s),
        forall|s: usize|
            (s as int) < old(fst).n() ==> #[trigger] final(fst).trs_at(s) == sort_trs(
                old(fst).trs_at(s),
                false,
            ),
{
    let ghost f0 = *fst;
    let n = fst.num_states();
    let mut s: usize = 0;
    while s < n
        invariant
            n == f0.n(),
            fst.n() == n,
            s <= n,
            fst.start == f0.start,
            forall|q: usize| (q as int) < n ==> #[trigger] fst.final_at(q) == f0.final_at(q),
            forall|q: usize| (q as int) < s ==> #[trigger] fst.trs_at(q) == sort_trs(f0.trs_at(q), false),
            forall|q: usize| s <= q < n ==> #[trigger] fst.trs_at(q) == f0.trs_at(q),
        decreases n - s,
    {
        proof {
            assert(fst.trs_at(s) == f0.trs_at(s));
        }
        let mut trs = copy_trs(fst.get_trs(s));
        sort_tr_vec(&mut trs, false);
        let ghost fb = *fst;
        let ghost sorted = trs@;
        fst.set_trs(s, trs);
        proof {
            assert(sorted == sort_trs(f0.trs_at(s), false));
            assert(fst.trs_at(s) == sorted);
            assert forall|q: usize| (q as int) < s + 1 implies #[trigger] fst.trs_at(q) == sort_trs(f0.trs_at(q), false) by {
                if q < s {
                    assert(fst.trs_at(q) == fb.trs_at(q));
                }
            }
        }
        s = s + 1;
    }
}

/// Every transition that `dedup_trs` keeps is a transition of `s`.
pub proof fn lemma_dedup_contains(s: Seq<Tr>)
    ensures
        forall|i: int| 0 <= i < dedup_trs(s).len() ==> s.contains(#[trigger] dedup_trs(s)[i]),
    decreases s.len(),
{
    if s.len() > 0 {
        lemma_dedup_contains(s.drop_last());
        let r = dedup_trs(s.drop_last());
        assert forall|i: int| 0 <= i < dedup_trs(s).len() implies s.contains(#[trigger] dedup_trs(s)[i]) by {
            if i < r.len() {
                assert(dedup_trs(s)[i] == r[i]);
                let j = choose|j: int| 0 <= j < s.drop_last().len() && s.drop_last()[j] == r[i];
                assert(s[j] == r[i]);
            } else {
                assert(dedup_trs(s)[i] == s.last());
                assert(s[s.len() - 1] == s.last());
            }
        }
    }
}

/// Sorting then removing repeated transitions keeps the destinations of a
/// well-formed fst among its states.
pub proof fn lemma_unique_targets(s: Seq<Tr>, n: int)
    requires
        forall|i: int| 0 <= i < s.len() ==> (#[trigger] s[i]).nextstate < n,
    ensures
        forall|i: int| 0 <= i < dedup_trs(sort_trs(s, true)).len() ==> (#[trigger] dedup_trs(sort_trs(s, true))[i]).nextstate < n,
{
    broadcast use vstd::seq_lib::group_to_multiset_ensures;

    let srt = sort_trs(s, true);
    lemma_sort_multiset(s, true);
    lemma_dedup_contains(srt);
    assert forall|i: int| 0 <= i < dedup_trs(srt).len() implies (#[trigger] dedup_trs(srt)[i]).nextstate < n by {
        let x = dedup_trs(srt)[i];
        assert(srt.contains(x));
        assert(srt.to_multiset().count(x) > 0);
        assert(s.contains(x));
    }
}

/// Sorts the transitions of every state by input label, output label and
/// destination, then removes each transition equal to the one before it.
pub fn tr_unique(fst: &mut VectorFst)
    ensures
        old(fst).wf() ==> final(fst).wf(),
        final(fst).n() == old(fst).n(),
        final(fst).start == old(fst).start,
        forall|s: usize| (s as int) < old(fst).n() ==> #[trigger] final(fst).final_at(s) == old(fst).final_at(s),
        forall|s: usize|
            (s as int) < old(fst).n() ==> #[trigger] final(fst).trs_at(s) == dedup_trs(
                sort_trs(old(fst).trs_at(s), true),
            ),
{
    let ghost f0 = *fst;
    let n = fst.num_states();
    let mut s: usize = 0;
    while s < n
        invariant
            n == f0.n(),
            fst.n() == n,
            s <= n,
            fst.start == f0.start,
            forall|q: usize| (q as int) < n ==> #[trigger] fst.final_at(q) == f0.final_at(q),
            forall|q: usize|
                (q as int) < s ==> #[trigger] fst.trs_at(q) == dedup_trs(sort_trs(f0.trs_at(q), true)),
            forall|q: usize| s <= q < n ==> #[trigger] fst.trs_at(q) == f0.trs_at(q),
        decreases n - s,
    {
        proof {
            assert(fst.trs_at(s) == f0.trs_at(s));
        }
        let mut trs = copy_trs(fst.get_trs(s));
        sort_tr_vec(&mut trs, true);
        let u = dedup_tr_vec(&trs);
        let ghost fb = *fst;
        fst.set_trs(s, u);
        proof {
            assert forall|q: usize| (q as int) < s + 1 implies #[trigger] fst.trs_at(q) == dedup_trs(sort_trs(f0.trs_at(q), true)) by {
                if q < s {
                    assert(fst.trs_at(q) == fb.trs_at(q));
                }
            }
        }
        s = s + 1;
    }
    proof {
        if f0.wf() {
            assert forall|q: int, i: int| 0 <= q < fst.n() && 0 <= i < fst.trs_of(q).len() implies (#[trigger] fst.trs_of(
                q,
            )[i]).nextstate < fst.n() by {
                f0.lemma_n_bound();
                let qu = q as usize;
                assert(qu as int == q);
                assert forall|j: int| 0 <= j < f0.trs_at(qu).len() implies (#[trigger] f0.trs_at(qu)[j]).nextstate < n by {
                    assert(f0.trs_of(q)[j] == f0.trs_at(qu)[j]);
                }
                lemma_unique_targets(f0.trs_at(qu), n as int);
                assert(fst.trs_at(qu) == dedup_trs(sort_trs(f0.trs_at(qu), true)));
            }
        }
    }
}

/// Inserting into a sorted sequence adds exactly the inserted transition.
pub proof fn lemma_insert_sorted_multiset(r: Seq<Tr>, x: Tr, full: bool)
    ensures
        insert_sorted(r, x, full).to_multiset() == r.to_multiset().insert(x),
    decreases r.len(),
{
    broadcast use vstd::seq_lib::group_to_multiset_ensures;

    if r.len() == 0 {
        assert(seq![x] =~= Seq::<Tr>::empty().push(x));
        assert(r =~= Seq::<Tr>::empty());
    } else if tr_key_lt(x, r.last(), full) {
        lemma_insert_sorted_multiset(r.drop_last(), x, full);
        assert(r =~= r.drop_last().push(r.last()));
        assert(insert_sorted(r, x, full).to_multiset() =~= r.to_multiset().insert(x));
    }
}

/// Sorting permutes: a sequence and its sorted version hold the same
/// transitions, each as many times.
pub proof fn lemma_sort_multiset(s: Seq<Tr>, full: bool)
    ensures
        sort_trs(s, full).to_multiset() == s.to_multiset(),
    decreases s.len(),
{
    broadcast use vstd::seq_lib::group_to_multiset_ensures;

    if s.len() == 0 {
        assert(sort_trs(s, full) =~= s);
    } else {
        lemma_sort_multiset(s.drop_last(), full);
        lemma_insert_sorted_multiset(sort_trs(s.drop_last(), full), s.last(), full);
        assert(s =~= s.drop_last().push(s.last()));
    }
}

/// The states of `f` and `g` hold the same transitions, in whatever order
/// and however many times each; start and final weights agree.
pub open spec fn same_transitions(f: &VectorFst, g: &VectorFst) -> bool {
    &&& f.n() == g.n()
    &&& f.start == g.start
    &&& forall|s: usize| (s as int) < f.n() ==> #[trigger] g.final_at(s) == f.final_at(s)
    &&& forall|s: usize, x: Tr|
        #![trigger g.trs_at(s).contains(x)]
        #![trigger f.trs_at(s).contains(x)]
        (s as int) < f.n() ==> (g.trs_at(s).contains(x) <==> f.trs_at(s).contains(x))
}

/// Every transition of `s` is kept by `dedup_trs`.
pub proof fn lemma_dedup_complete(s: Seq<Tr>, x: Tr)
    requires
        s.contains(x),
    ensures
        dedup_trs(s).contains(x),
    decreases s.len(),
{
    let r = dedup_trs(s.drop_last());
    if s.last() == x {
        if s.len() > 1 && s[s.len() - 2] == s.last() {
            assert(s.drop_last()[s.len() - 2] == x);
            lemma_dedup_complete(s.drop_last(), x);
        } else {
            assert(dedup_trs(s) == r.push(x));
            assert(dedup_trs(s)[r.len() as int] == x);
        }
    } else {
        let j = choose|j: int| 0 <= j < s.len() && s[j] == x;
        assert(j < s.len() - 1);
        assert(s.drop_last()[j] == x);
        lemma_dedup_complete(s.drop_last(), x);
        let i = choose|i: int| 0 <= i < r.len() && r[i] == x;
        assert(dedup_trs(s)[i] == x);
    }
}

/// `dedup_trs` after `sort_trs` keeps exactly the transitions of `s`.
pub proof fn lemma_unique_same(s: Seq<Tr>, x: Tr)
    ensures
        dedup_trs(sort_trs(s, true)).contains(x) <==> s.contains(x),
{
    broadcast use vstd::seq_lib::group_to_multiset_ensures;

    let srt = sort_trs(s, true);
    lemma_sort_multiset(s, true);
    lemma_dedup_contains(srt);
    if dedup_trs(srt).contains(x) {
        let i = choose|i: int| 0 <= i < dedup_trs(srt).len() && dedup_trs(srt)[i] == x;
        assert(srt.contains(dedup_trs(srt)[i]));
        assert(srt.to_multiset().count(x) > 0);
    }
    if s.contains(x) {
        assert(s.to_multiset().count(x) > 0);
        assert(srt.contains(x));
        lemma_dedup_complete(srt, x);
    }
}

/// A transition of `g` is a transition of `f`.
proof fn lemma_same_tr(f: &VectorFst, g: &VectorFst, s: usize, i: int) -> (j: int)
    requires
        same_transitions(f, g),
        (s as int) < f.n(),
        0 <= i < g.trs_at(s).len(),
    ensures
        0 <= j < f.trs_at(s).len(),
        f.trs_at(s)[j] == g.trs_at(s)[i],
{
    let x = g.trs_at(s)[i];
    assert(g.trs_at(s).contains(x));
    assert(f.trs_at(s).contains(x));
    choose|j: int| 0 <= j < f.trs_at(s).len() && f.trs_at(s)[j] == x
}

/// Fsts with the same transitions have the same edges, the same walks and
/// the same accessible states; one is well formed or acyclic when the
/// other is.
pub proof fn lemma_same_transitions(f: &VectorFst, g: &VectorFst)
    requires
        same_transitions(f, g),
    ensures
        f.wf() ==> g.wf(),
        forall|s: usize| #[trigger] g.accessible(s) == f.accessible(s),
        forall|s: usize| #[trigger] g.coaccessible(s) == f.coaccessible(s),
        f.acyclic() ==> g.acyclic(),
{
    let gf = f.succ_graph();
    let gg = g.succ_graph();
    assert(same_transitions(g, f)) by {
        assert forall|s: usize| (s as int) < g.n() implies #[trigger] f.final_at(s) == g.final_at(s) by {
            assert(g.final_at(s) == f.final_at(s));
        }
        assert forall|s: usize, x: Tr| (s as int) < g.n() implies (#[trigger] f.trs_at(s).contains(x) <==> g.trs_at(s).contains(x)) by {
            assert(g.trs_at(s).contains(x) <==> f.trs_at(s).contains(x));
        }
    }
    assert forall|a: usize, b: usize| #[trigger] edge(gf, a, b) == edge(gg, a, b) by {
        lemma_succ_edge(*f, a, b);
        lemma_succ_edge(*g, a, b);
        if edge(gf, a, b) {
            let j = choose|j: int| 0 <= j < f.trs_of(a as int).len() && #[trigger] f.trs_of(a as int)[j].nextstate == b;
            let i = lemma_same_tr(g, f, a, j);
            assert(g.trs_of(a as int)[i].nextstate == b);
        }
        if edge(gg, a, b) {
            let j = choose|j: int| 0 <= j < g.trs_of(a as int).len() && #[trigger] g.trs_of(a as int)[j].nextstate == b;
            let i = lemma_same_tr(f, g, a, j);
            assert(f.trs_of(a as int)[i].nextstate == b);
        }
    }
    assert(gf.len() == gg.len());
    assert forall|p: Seq<usize>| #[trigger] is_walk(gf, p) == is_walk(gg, p) by {
        if is_walk(gf, p) {
            assert forall|i: int| 0 <= i < p.len() - 1 implies #[trigger] edge(gg, p[i], p[i + 1]) by {
                assert(edge(gf, p[i], p[i + 1]));
            }
        }
        if is_walk(gg, p) {
            assert forall|i: int| 0 <= i < p.len() - 1 implies #[trigger] edge(gf, p[i], p[i + 1]) by {
                assert(edge(gg, p[i], p[i + 1]));
            }
        }
    }
    assert forall|a: usize, b: usize| #[trigger] reaches(gf, a, b) == reaches(gg, a, b) by {
        if reaches(gf, a, b) {
            let p = choose|p: Seq<usize>| #[trigger] is_walk(gf, p) && p[0] == a && p.last() == b;
            assert(is_walk(gg, p));
        }
        if reaches(gg, a, b) {
            let p = choose|p: Seq<usize>| #[trigger] is_walk(gg, p) && p[0] == a && p.last() == b;
            assert(is_walk(gf, p));
        }
    }
    assert forall|s: usize| #[trigger] g.coaccessible(s) == f.coaccessible(s) by {
        if f.coaccessible(s) {
            let t = choose|t: usize| (t as int) < f.n() && f.final_of(t as int) is Some && #[trigger] reaches(gf, s, t);
            assert(g.final_at(t) == f.final_at(t));
            assert(reaches(gg, s, t));
        }
        if g.coaccessible(s) {
            let t = choose|t: usize| (t as int) < g.n() && g.final_of(t as int) is Some && #[trigger] reaches(gg, s, t);
            assert(g.final_at(t) == f.final_at(t));
            assert(reaches(gf, s, t));
        }
    }
    if f.wf() {
        assert forall|s: int, i: int| 0 <= s < g.n() && 0 <= i < g.trs_of(s).len() implies (#[trigger] g.trs_of(
            s,
        )[i]).nextstate < g.n() by {
            g.lemma_n_bound();
            let su = s as usize;
            assert(su as int == s);
            let j = lemma_same_tr(f, g, su, i);
            assert((f.trs_at(su)[j]).nextstate < f.n());
        }
    }
    if f.acyclic() {
        let r = choose|r: spec_fn(usize) -> nat| #[trigger] f.is_ranking(r);
        assert forall|s: usize, i: int| (s as int) < g.n() && 0 <= i < g.trs_at(s).len() implies r(
            #[trigger] g.trs_at(s)[i].nextstate,
        ) < r(s) by {
            let j = lemma_same_tr(f, g, s, i);
        }
        assert(g.is_ranking(r));
    }
}

/// No transition comes before an earlier one in the key order.
pub open spec fn key_sorted(s: Seq<Tr>, full: bool) -> bool {
    forall|i: int, j: int| 0 <= i < j < s.len() ==> !tr_key_lt(#[trigger] s[j], #[trigger] s[i], full)
}

/// Inserting into a sorted sequence keeps it sorted.
pub proof fn lemma_insert_sorted_sorted(r: Seq<Tr>, x: Tr, full: bool)
    requires
        key_sorted(r, full),
    ensures
        key_sorted(insert_sorted(r, x, full), full),
    decreases r.len(),
{
    broadcast use vstd::seq_lib::group_to_multiset_ensures;

    if r.len() > 0 {
        let last = r.last();
        let u = r.drop_last();
        if tr_key_lt(x, last, full) {
            assert(key_sorted(u, full)) by {
                assert forall|i: int, j: int| 0 <= i < j < u.len() implies !tr_key_lt(#[trigger] u[j], #[trigger] u[i], full) by {
                    assert(u[i] == r[i] && u[j] == r[j]);
                }
            }
            lemma_insert_sorted_sorted(u, x, full);
            lemma_insert_sorted_multiset(u, x, full);
            let w = insert_sorted(u, x, full);
            let v = w.push(last);
            assert forall|i: int, j: int| 0 <= i < j < v.len() implies !tr_key_lt(#[trigger] v[j], #[trigger] v[i], full) by {
                if j < w.len() {
                    assert(v[i] == w[i] && v[j] == w[j]);
                } else {
                    assert(v[j] == last);
                    let e = w[i];
                    assert(v[i] == e);
                    assert(w.contains(e));
                    assert(w.to_multiset().count(e) > 0);
                    if e != x {
                        assert(u.to_multiset().count(e) > 0);
                        assert(u.contains(e));
                        let k = choose|k: int| 0 <= k < u.len() && u[k] == e;
                        assert(r[k] == e && r[r.len() - 1] == last);
                    }
                }
            }
        } else {
            let v = r.push(x);
            assert forall|i: int, j: int| 0 <= i < j < v.len() implies !tr_key_lt(#[trigger] v[j], #[trigger] v[i], full) by {
                if j < r.len() {
                    assert(v[i] == r[i] && v[j] == r[j]);
                } else {
                    assert(v[j] == x);
                    assert(v[i] == r[i]);
                    if i < r.len() - 1 {
                        assert(r[r.len() - 1] == last);
                        assert(!tr_key_lt(r[r.len() - 1], r[i], full));
                    }
                }
            }
        }
    }
}

/// `sort_trs` sorts: no transition comes before an earlier one.
pub proof fn lemma_sort_sorted(s: Seq<Tr>, full: bool)
    ensures
        key_sorted(sort_trs(s, full), full),
    decreases s.len(),
{
    if s.len() > 0 {
        lemma_sort_sorted(s.drop_last(), full);
        lemma_insert_sorted_sorted(sort_trs(s.drop_last(), full), s.last(), full);
    }
}

/// `dedup_trs` leaves no transition equal to the one before it.
pub proof fn lemma_dedup_no_repeat(s: Seq<Tr>)
    ensures
        forall|i: int| 0 < i < dedup_trs(s).len() ==> #[trigger] dedup_trs(s)[i] != dedup_trs(s)[i - 1],
    decreases s.len(),
{
    if s.len() > 0 {
        lemma_dedup_no_repeat(s.drop_last());
        let r = dedup_trs(s.drop_last());
        if !(s.len() > 1 && s[s.len() - 2] == s.last()) && r.len() > 0 {
            lemma_dedup_last(s.drop_last());
            assert(r.last() == s.drop_last().last());
        }
        assert forall|i: int| 0 < i < dedup_trs(s).len() implies #[trigger] dedup_trs(s)[i] != dedup_trs(s)[i - 1] by {
            if i < r.len() {
                assert(dedup_trs(s)[i] == r[i] && dedup_trs(s)[i - 1] == r[i - 1]);
            } else {
                assert(dedup_trs(s)[i] == s.last());
                assert(dedup_trs(s)[i - 1] == r.last());
            }
        }
    }
}

/// The last transition that `dedup_trs` keeps is the last transition.
pub proof fn lemma_dedup_last(s: Seq<Tr>)
    requires
        s.len() > 0,
    ensures
        dedup_trs(s).len() > 0,
        dedup_trs(s).last() == s.last(),
    decreases s.len(),
{
    if s.len() > 1 && s[s.len() - 2] == s.last() {
        lemma_dedup_last(s.drop_last());
        assert(s.drop_last().last() == s[s.len() - 2]);
    }
}

/// Transitions of `t` with one input label are equal.
pub open spec fn label_functional(t: Seq<Tr>) -> bool {
    forall|i: int, j: int|
        #![trigger t[i], t[j]]
        0 <= i < t.len() && 0 <= j < t.len() && t[i].ilabel == t[j].ilabel ==> t[i] == t[j]
}

/// Removing repeats keeps a sequence sorted.
pub proof fn lemma_dedup_sorted(s: Seq<Tr>, full: bool)
    requires
        key_sorted(s, full),
    ensures
        key_sorted(dedup_trs(s), full),
    decreases s.len(),
{
    if s.len() > 0 {
        let u = s.drop_last();
        assert(key_sorted(u, full)) by {
            assert forall|i: int, j: int| 0 <= i < j < u.len() implies !tr_key_lt(#[trigger] u[j], #[trigger] u[i], full) by {
                assert(u[i] == s[i] && u[j] == s[j]);
            }
        }
        lemma_dedup_sorted(u, full);
        lemma_dedup_contains(u);
        let r = dedup_trs(u);
        let d = dedup_trs(s);
        assert forall|i: int, j: int| 0 <= i < j < d.len() implies !tr_key_lt(#[trigger] d[j], #[trigger] d[i], full) by {
            if j < r.len() {
                assert(d[i] == r[i] && d[j] == r[j]);
            } else {
                assert(d[i] == r[i]);
                assert(d[j] == s.last());
                assert(u.contains(r[i]));
                let k = choose|k: int| 0 <= k < u.len() && u[k] == r[i];
                assert(s[k] == u[k]);
                assert(s[s.len() - 1] == s.last());
            }
        }
    }
}

/// Sorting a label-functional sequence and removing repeats leaves
/// transitions with pairwise different input labels.
pub proof fn lemma_unique_distinct(t: Seq<Tr>)
    requires
        label_functional(t),
    ensures
        forall|i: int, j: int|
            #![trigger dedup_trs(sort_trs(t, true))[i], dedup_trs(sort_trs(t, true))[j]]
            0 <= i < j < dedup_trs(sort_trs(t, true)).len() ==> dedup_trs(sort_trs(t, true))[i].ilabel != dedup_trs(
                sort_trs(t, true),
            )[j].ilabel,
{
    let d = dedup_trs(sort_trs(t, true));
    lemma_sort_sorted(t, true);
    lemma_dedup_sorted(sort_trs(t, true), true);
    lemma_dedup_no_repeat(sort_trs(t, true));
    assert forall|i: int, j: int| #![trigger d[i], d[j]] 0 <= i < j < d.len() implies d[i].ilabel != d[j].ilabel by {
        if d[i].ilabel == d[j].ilabel {
            lemma_unique_same(t, d[i]);
            lemma_unique_same(t, d[j]);
            assert(d.contains(d[i]));
            assert(d.contains(d[j]));
            let a = choose|a: int| 0 <= a < t.len() && t[a] == d[i];
            let b = choose|b: int| 0 <= b < t.len() && t[b] == d[j];
            assert(t[a] == t[b]);
            let k = j - 1;
            assert(!tr_key_lt(d[j], d[k], true));
            assert(!tr_key_lt(d[k], d[i], true));
            assert(d[k].ilabel == d[i].ilabel);
            lemma_unique_same(t, d[k]);
            assert(d.contains(d[k]));
            let c = choose|c: int| 0 <= c < t.len() && t[c] == d[k];
            assert(t[c] == t[a]);
            assert(d[k] == d[j]);
        }
    }
}

} // verus!
