use vstd::prelude::*;

use crate::connect::connect_result;
use crate::connect::kept;
use crate::connect::kept_before;
use crate::connect::kept_trs;
use crate::connect::lemma_kept_before_le;
use crate::connect::lemma_kept_before_lt;
use crate::connect::lemma_kept_trs_contains;
use crate::connect::lemma_kept_trs_source;
use crate::connect::lemma_succ_edge;
use crate::acyclic::lemma_state_sig_eq;
use crate::acyclic::sig_congruence;
use crate::comparator::final_code;
use crate::fst::Tr;
use crate::fst::WEIGHT_ZERO;
use crate::merge::lemma_rep;
use crate::merge::members_of;
use crate::merge::merged;
use crate::merge::merged_trs;
use crate::merge::remap_tr;
use crate::merge::remap_trs;
use crate::merge::rep_of;
use crate::minimize::acceptor_minimized;
use crate::minimize::ilabel_sorted_of;
use crate::minimize::minimized_from;
use crate::minimize::unique_of;
use crate::partition::Partition;
use crate::fst::VectorFst;
use crate::graph::edge;
use crate::graph::lemma_reaches_prepend;
use crate::graph::lemma_reaches_refl;
use crate::graph::lemma_reaches_step;
use crate::graph::reaches;
use crate::tr_ops::same_transitions;

verus! {

/// State `s` is final with a weight other than `Zero`.
pub open spec fn accepting(f: &VectorFst, s: usize) -> bool {
    f.final_at(s) matches Some(w) && w != WEIGHT_ZERO
}

/// The word `w` labels a path of transitions from state `s` to a state with
/// a final weight other than `Zero` (transition weights are not looked at:
/// this is the language of an unweighted acceptor).
pub open spec fn accepts(f: &VectorFst, s: usize, w: Seq<usize>) -> bool
    decreases w.len(),
{
    if w.len() == 0 {
        accepting(f, s)
    } else {
        exists|i: int|
            0 <= i < f.trs_at(s).len() && (#[trigger] f.trs_at(s)[i]).ilabel == w[0] && accepts(
                f,
                f.trs_at(s)[i].nextstate,
                w.drop_first(),
            )
    }
}

/// The fst accepts `w` from its start state.
pub open spec fn accepts_fst(f: &VectorFst, w: Seq<usize>) -> bool {
    f.start matches Some(st) && accepts(f, st, w)
}

/// A state that accepts some word reaches a final state.
pub proof fn lemma_accepts_coaccessible(f: &VectorFst, s: usize, w: Seq<usize>)
    requires
        f.wf(),
        (s as int) < f.n(),
        accepts(f, s, w),
    ensures
        f.coaccessible(s),
    decreases w.len(),
{
    let g = f.succ_graph();
    if w.len() == 0 {
        lemma_reaches_refl(g, s);
        assert(reaches(g, s, s));
    } else {
        let i = choose|i: int|
            0 <= i < f.trs_at(s).len() && (#[trigger] f.trs_at(s)[i]).ilabel == w[0] && accepts(
                f,
                f.trs_at(s)[i].nextstate,
                w.drop_first(),
            );
        let t = f.trs_at(s)[i].nextstate;
        assert((t as int) < f.n());
        lemma_accepts_coaccessible(f, t, w.drop_first());
        let fin = choose|fin: usize| (fin as int) < f.n() && f.final_of(fin as int) is Some && #[trigger] reaches(g, t, fin);
        lemma_succ_edge(*f, s, t);
        assert(f.trs_of(s as int)[i].nextstate == t);
        assert(edge(g, s, t));
        lemma_reaches_prepend(g, s, t, fin);
    }
}

/// Fsts with the same transitions accept the same words from each state.
pub proof fn lemma_same_transitions_accepts(f: &VectorFst, g: &VectorFst, s: usize, w: Seq<usize>)
    requires
        f.wf(),
        same_transitions(f, g),
        (s as int) < f.n(),
    ensures
        accepts(g, s, w) == accepts(f, s, w),
    decreases w.len(),
{
    if w.len() > 0 {
        if accepts(f, s, w) {
            let i = choose|i: int|
                0 <= i < f.trs_at(s).len() && (#[trigger] f.trs_at(s)[i]).ilabel == w[0] && accepts(
                    f,
                    f.trs_at(s)[i].nextstate,
                    w.drop_first(),
                );
            let x = f.trs_at(s)[i];
            assert(f.trs_at(s).contains(x));
            assert(g.trs_at(s).contains(x));
            let j = choose|j: int| 0 <= j < g.trs_at(s).len() && g.trs_at(s)[j] == x;
            assert((x.nextstate as int) < f.n());
            lemma_same_transitions_accepts(f, g, x.nextstate, w.drop_first());
            assert(g.trs_at(s)[j].ilabel == w[0]);
        }
        if accepts(g, s, w) {
            let i = choose|i: int|
                0 <= i < g.trs_at(s).len() && (#[trigger] g.trs_at(s)[i]).ilabel == w[0] && accepts(
                    g,
                    g.trs_at(s)[i].nextstate,
                    w.drop_first(),
                );
            let x = g.trs_at(s)[i];
            assert(g.trs_at(s).contains(x));
            assert(f.trs_at(s).contains(x));
            let j = choose|j: int| 0 <= j < f.trs_at(s).len() && f.trs_at(s)[j] == x;
            assert((x.nextstate as int) < f.n());
            lemma_same_transitions_accepts(f, g, x.nextstate, w.drop_first());
            assert(f.trs_at(s)[j].ilabel == w[0]);
        }
    }
}

/// Fsts with the same transitions accept the same words.
pub proof fn lemma_same_transitions_language(f: &VectorFst, g: &VectorFst, w: Seq<usize>)
    requires
        f.wf(),
        same_transitions(f, g),
    ensures
        accepts_fst(g, w) == accepts_fst(f, w),
{
    if f.start is Some {
        lemma_same_transitions_accepts(f, g, f.start.unwrap(), w);
    }
}

/// A kept state accepts in the result of `connect` what it accepts before.
pub proof fn lemma_connect_accepts(f0: VectorFst, f1: VectorFst, s: usize, w: Seq<usize>)
    requires
        f0.wf(),
        connect_result(f0, f1),
        (s as int) < f0.n(),
        kept(f0, s),
    ensures
        accepts(&f1, kept_before(f0, s as int) as usize, w) == accepts(&f0, s, w),
    decreases w.len(),
{
    f0.lemma_n_bound();
    lemma_kept_before_le(f0, f0.n());
    lemma_kept_before_lt(f0, s, f0.n());
    let q = kept_before(f0, s as int) as usize;
    assert(q as int == kept_before(f0, s as int));
    assert(f1.trs_of(kept_before(f0, s as int) as int) == kept_trs(f0, f0.trs_of(s as int)));
    let kt = kept_trs(f0, f0.trs_of(s as int));
    assert(f1.trs_at(q) == kt);
    let g0 = f0.succ_graph();
    if w.len() > 0 {
        if accepts(&f0, s, w) {
            let j = choose|j: int|
                0 <= j < f0.trs_at(s).len() && (#[trigger] f0.trs_at(s)[j]).ilabel == w[0] && accepts(
                    &f0,
                    f0.trs_at(s)[j].nextstate,
                    w.drop_first(),
                );
            let t = f0.trs_at(s)[j].nextstate;
            assert((t as int) < f0.n());
            lemma_accepts_coaccessible(&f0, t, w.drop_first());
            lemma_succ_edge(f0, s, t);
            assert(f0.trs_of(s as int)[j].nextstate == t);
            assert(edge(g0, s, t));
            lemma_reaches_step(g0, f0.start.unwrap(), s, t);
            assert(kept(f0, t));
            lemma_kept_trs_contains(f0, f0.trs_of(s as int), j);
            let i = choose|i: int|
                0 <= i < kt.len() && (#[trigger] kt[i]).nextstate == kept_before(f0, f0.trs_of(s as int)[j].nextstate as int)
                    && kt[i].ilabel == f0.trs_of(s as int)[j].ilabel;
            lemma_connect_accepts(f0, f1, t, w.drop_first());
            lemma_kept_before_lt(f0, t, f0.n());
            assert(f1.trs_at(q)[i].nextstate == kept_before(f0, t as int) as usize);
        }
        if accepts(&f1, q, w) {
            let i = choose|i: int|
                0 <= i < f1.trs_at(q).len() && (#[trigger] f1.trs_at(q)[i]).ilabel == w[0] && accepts(
                    &f1,
                    f1.trs_at(q)[i].nextstate,
                    w.drop_first(),
                );
            lemma_kept_trs_source(f0, f0.trs_of(s as int), i);
            let j = choose|j: int|
                0 <= j < f0.trs_of(s as int).len() && (f0.trs_of(s as int)[j].nextstate as int) < f0.n() && kept(
                    f0,
                    f0.trs_of(s as int)[j].nextstate,
                ) && kt[i].nextstate == kept_before(f0, #[trigger] f0.trs_of(s as int)[j].nextstate as int)
                    && kt[i].ilabel == f0.trs_of(s as int)[j].ilabel;
            let t = f0.trs_of(s as int)[j].nextstate;
            lemma_connect_accepts(f0, f1, t, w.drop_first());
            lemma_kept_before_lt(f0, t, f0.n());
            assert(kt[i].nextstate == kept_before(f0, t as int) as usize);
            assert(f0.trs_at(s)[j].nextstate == t);
        }
    } else {
        assert(f1.final_of(q as int) == f0.final_of(s as int));
    }
}

/// `connect` keeps the language of an fst.
pub proof fn lemma_connect_language(f0: VectorFst, f1: VectorFst, w: Seq<usize>)
    requires
        f0.wf(),
        connect_result(f0, f1),
    ensures
        accepts_fst(&f1, w) == accepts_fst(&f0, w),
{
    match f0.start {
        Some(st) => {
            let g0 = f0.succ_graph();
            lemma_reaches_refl(g0, st);
            if kept(f0, st) {
                lemma_connect_accepts(f0, f1, st, w);
            } else {
                if accepts(&f0, st, w) {
                    lemma_accepts_coaccessible(&f0, st, w);
                }
            }
        },
        None => {},
    }
}

/// State `x` has a transition with input label `l` into class `d`.
#[verifier::opaque]
pub open spec fn has_tr_into(f: &VectorFst, p: Partition, x: usize, l: usize, d: int) -> bool {
    exists|i: int|
        0 <= i < f.trs_at(x).len() && (#[trigger] f.trs_at(x)[i]).ilabel == l && p.class_at(f.trs_at(x)[i].nextstate)
            == d
}

/// States of a common class of `p` are alike: both final or both not, and
/// for each transition of one, the other has a transition with the same
/// input label into the same class.
pub open spec fn bisim_partition(f: &VectorFst, p: Partition) -> bool {
    &&& forall|x: usize, z: usize|
        #![trigger p.class_at(x), p.class_at(z)]
        (x as int) < f.n() && (z as int) < f.n() && p.class_at(x) == p.class_at(z) ==> accepting(f, x) == accepting(
            f,
            z,
        )
    &&& forall|x: usize, z: usize, j: int|
        #![trigger p.class_at(x), f.trs_at(z)[j]]
        (x as int) < f.n() && (z as int) < f.n() && p.class_at(x) == p.class_at(z) && 0 <= j < f.trs_at(z).len()
            ==> has_tr_into(f, p, x, f.trs_at(z)[j].ilabel, p.class_at(f.trs_at(z)[j].nextstate))
}

/// Each transition of a member appears, remapped, in the merged transitions.
pub proof fn lemma_merged_trs_has(f: &VectorFst, p: Partition, ms: Seq<usize>, z: usize, j: int)
    requires
        ms.contains(z),
        0 <= j < f.trs_at(z).len(),
    ensures
        exists|i: int| 0 <= i < merged_trs(f, p, ms).len() && #[trigger] merged_trs(f, p, ms)[i] == remap_tr(p, f.trs_at(z)[j]),
    decreases ms.len(),
{
    let a = merged_trs(f, p, ms.drop_last());
    let b = remap_trs(p, f.trs_at(ms.last()));
    assert(merged_trs(f, p, ms) == a + b);
    if ms.last() == z {
        assert((a + b)[a.len() + j] == b[j]);
    } else {
        let k = choose|k: int| 0 <= k < ms.len() && ms[k] == z;
        assert(k < ms.len() - 1);
        assert(ms.drop_last()[k] == z);
        lemma_merged_trs_has(f, p, ms.drop_last(), z, j);
        let i = choose|i: int| 0 <= i < a.len() && #[trigger] a[i] == remap_tr(p, f.trs_at(z)[j]);
        assert((a + b)[i] == a[i]);
    }
}

/// Each merged transition is a remapped transition of a member.
pub proof fn lemma_merged_trs_from(f: &VectorFst, p: Partition, ms: Seq<usize>, i: int)
    requires
        0 <= i < merged_trs(f, p, ms).len(),
    ensures
        exists|k: int, j: int|
            0 <= k < ms.len() && 0 <= j < f.trs_at(ms[k]).len() && merged_trs(f, p, ms)[i] == remap_tr(
                p,
                #[trigger] f.trs_at(ms[k])[j],
            ),
    decreases ms.len(),
{
    let a = merged_trs(f, p, ms.drop_last());
    let b = remap_trs(p, f.trs_at(ms.last()));
    assert(merged_trs(f, p, ms) == a + b);
    if i < a.len() {
        lemma_merged_trs_from(f, p, ms.drop_last(), i);
        let (k, j) = choose|k: int, j: int|
            0 <= k < ms.drop_last().len() && 0 <= j < f.trs_at(ms.drop_last()[k]).len() && a[i] == remap_tr(
                p,
                #[trigger] f.trs_at(ms.drop_last()[k])[j],
            );
        assert(ms.drop_last()[k] == ms[k]);
        assert((a + b)[i] == a[i]);
    } else {
        let k = ms.len() - 1;
        let j = i - a.len();
        assert(ms[k] == ms.last());
        assert((a + b)[i] == b[j]);
        assert(b[j] == remap_tr(p, f.trs_at(ms[k])[j]));
    }
}

/// Merging by a partition whose classes hold alike states keeps what each
/// state accepts: the representative of its class accepts the same words.
pub proof fn lemma_merge_accepts(s: &VectorFst, p: Partition, m: &VectorFst, x: usize, w: Seq<usize>)
    requires
        s.wf(),
        p.wf(),
        p.nonempty(),
        p.len() == s.n(),
        merged(s, p, m),
        bisim_partition(s, p),
        (x as int) < s.n(),
    ensures
        accepts(m, rep_of(p, p.class_at(x)), w) == accepts(s, x, w),
    decreases w.len(),
{
    let c = p.class_at(x);
    crate::merge::lemma_member(p, x);
    lemma_rep(p, c);
    let r = rep_of(p, c);
    let ms = members_of(p, c);
    assert(m.trs_at(r) == merged_trs(s, p, ms));
    if w.len() == 0 {
        assert(m.final_at(r) == s.final_at(r));
    } else {
        if accepts(s, x, w) {
            let j = choose|j: int|
                0 <= j < s.trs_at(x).len() && (#[trigger] s.trs_at(x)[j]).ilabel == w[0] && accepts(
                    s,
                    s.trs_at(x)[j].nextstate,
                    w.drop_first(),
                );
            let y = s.trs_at(x)[j].nextstate;
            assert((y as int) < s.n());
            lemma_merged_trs_has(s, p, ms, x, j);
            let i = choose|i: int| 0 <= i < merged_trs(s, p, ms).len() && #[trigger] merged_trs(s, p, ms)[i] == remap_tr(p, s.trs_at(x)[j]);
            lemma_merge_accepts(s, p, m, y, w.drop_first());
            assert(m.trs_at(r)[i].nextstate == rep_of(p, p.class_at(y)));
            assert(m.trs_at(r)[i].ilabel == w[0]);
        }
        if accepts(m, r, w) {
            let i = choose|i: int|
                0 <= i < m.trs_at(r).len() && (#[trigger] m.trs_at(r)[i]).ilabel == w[0] && accepts(
                    m,
                    m.trs_at(r)[i].nextstate,
                    w.drop_first(),
                );
            lemma_merged_trs_from(s, p, ms, i);
            let (k, j) = choose|k: int, j: int|
                0 <= k < ms.len() && 0 <= j < s.trs_at(ms[k]).len() && merged_trs(s, p, ms)[i] == remap_tr(
                    p,
                    #[trigger] s.trs_at(ms[k])[j],
                );
            let z = ms[k];
            assert(ms.contains(z));
            crate::merge::lemma_member_of(p, c, z);
            assert((z as int) < s.n() && p.class_at(z) == c);
            let y = s.trs_at(z)[j].nextstate;
            assert(has_tr_into(s, p, x, s.trs_at(z)[j].ilabel, p.class_at(s.trs_at(z)[j].nextstate)));
            reveal(has_tr_into);
            let i2 = choose|i2: int|
                0 <= i2 < s.trs_at(x).len() && (#[trigger] s.trs_at(x)[i2]).ilabel == s.trs_at(z)[j].ilabel && p.class_at(
                    s.trs_at(x)[i2].nextstate,
                ) == p.class_at(s.trs_at(z)[j].nextstate);
            let y2 = s.trs_at(x)[i2].nextstate;
            assert((y2 as int) < s.n());
            lemma_merge_accepts(s, p, m, y2, w.drop_first());
            assert(m.trs_at(r)[i].nextstate == rep_of(p, p.class_at(y)));
        }
    }
}

/// Merging by a partition whose classes hold alike states keeps the
/// language of the fst.
pub proof fn lemma_merge_language(s: &VectorFst, p: Partition, m: &VectorFst, w: Seq<usize>)
    requires
        s.wf(),
        p.wf(),
        p.nonempty(),
        p.len() == s.n(),
        merged(s, p, m),
        bisim_partition(s, p),
        s.start is Some,
    ensures
        accepts_fst(m, w) == accepts_fst(s, w),
{
    lemma_merge_accepts(s, p, m, s.start.unwrap(), w);
}

/// A partition that splits the states exactly by signature holds alike
/// states, when no final weight is `Zero`.
pub proof fn lemma_sig_congruence_bisim(f: &VectorFst, p: Partition)
    requires
        f.wf(),
        p.wf(),
        p.len() == f.n(),
        sig_congruence(f, p),
    ensures
        bisim_partition(f, p),
{
    assert forall|x: usize, z: usize|
        (x as int) < f.n() && (z as int) < f.n() && #[trigger] p.class_at(x) == #[trigger] p.class_at(z) implies accepting(
        f,
        x,
    ) == accepting(f, z) by {
        lemma_state_sig_eq(f, p, x, z);
        assert(final_code(f, x) == final_code(f, z));
    }
    assert forall|x: usize, z: usize, j: int|
        (x as int) < f.n() && (z as int) < f.n() && #[trigger] p.class_at(x) == p.class_at(z) && 0 <= j
            < f.trs_at(z).len() implies has_tr_into(
        f,
        p,
        x,
        (#[trigger] f.trs_at(z)[j]).ilabel,
        p.class_at(f.trs_at(z)[j].nextstate),
    ) by {
        lemma_state_sig_eq(f, p, x, z);
        assert(f.trs_at(x)[j].ilabel == f.trs_at(z)[j].ilabel);
        reveal(has_tr_into);
    }
}

/// Minimization on the acyclic path keeps the language: the minimized fst
/// accepts exactly the words that the input accepts.
pub proof fn lemma_acyclic_minimization_language(f0: VectorFst, f: VectorFst, w: Seq<usize>)
    requires
        f0.wf(),
        acceptor_minimized(f0, true, f),
    ensures
        accepts_fst(&f, w) == accepts_fst(&f0, w),
{
    let c = choose|c: VectorFst|
        #[trigger] connect_result(f0, c) && c.wf() && (c.n() == 0 ==> f == c) && (c.n() > 0 ==> minimized_from(&c, true, &f));
    lemma_connect_language(f0, c, w);
    if c.n() > 0 {
        crate::connect::lemma_connect_connected(f0, c);
        assert(c.accessible(0));
        let (s, p, m, q) = choose|s: VectorFst, p: Partition, m: VectorFst, q: VectorFst|
            crate::minimize::minimized_via(&c, true, &f, s, p, m, q);
        lemma_sorted_same(&c, &s);
        crate::tr_ops::lemma_same_transitions(&c, &s);
        lemma_same_transitions_language(&c, &s, w);
        lemma_sig_congruence_bisim(&s, p);
        lemma_merge_language(&s, p, &m, w);
        lemma_connect_language(m, q, w);
        lemma_unique_same(&q, &f);
        lemma_same_transitions_language(&q, &f, w);
    }
}

/// Minimization on the cyclic path keeps the language.
pub proof fn lemma_cyclic_minimization_language(f0: VectorFst, f: VectorFst, w: Seq<usize>)
    requires
        f0.wf(),
        acceptor_minimized(f0, false, f),
    ensures
        accepts_fst(&f, w) == accepts_fst(&f0, w),
{
    let c = choose|c: VectorFst|
        #[trigger] connect_result(f0, c) && c.wf() && (c.n() == 0 ==> f == c) && (c.n() > 0 ==> minimized_from(&c, false, &f));
    lemma_connect_language(f0, c, w);
    if c.n() > 0 {
        crate::connect::lemma_connect_connected(f0, c);
        assert(c.accessible(0));
        let (s, p, m, q) = choose|s: VectorFst, p: Partition, m: VectorFst, q: VectorFst|
            crate::minimize::minimized_via(&c, false, &f, s, p, m, q);
        crate::minimality::lemma_sorted_of_props(&c, &s);
        lemma_same_transitions_language(&c, &s, w);
        lemma_merge_language(&s, p, &m, w);
        lemma_connect_language(m, q, w);
        lemma_unique_same(&q, &f);
        lemma_same_transitions_language(&q, &f, w);
    }
}

/// Minimization keeps the language: the minimized fst accepts exactly the
/// words that the input accepts.
pub proof fn lemma_minimization_language(f0: VectorFst, acyclic_path: bool, f: VectorFst, w: Seq<usize>)
    requires
        f0.wf(),
        acceptor_minimized(f0, acyclic_path, f),
    ensures
        accepts_fst(&f, w) == accepts_fst(&f0, w),
{
    if acyclic_path {
        lemma_acyclic_minimization_language(f0, f, w);
    } else {
        lemma_cyclic_minimization_language(f0, f, w);
    }
}

/// Sorting the transitions keeps them.
pub proof fn lemma_sorted_same(c: &VectorFst, s: &VectorFst)
    requires
        ilabel_sorted_of(c, s),
    ensures
        same_transitions(c, s),
{
    assert forall|x: usize, t: Tr| (x as int) < c.n() implies (#[trigger] s.trs_at(x).contains(t) <==> c.trs_at(
        x,
    ).contains(t)) by {
        broadcast use vstd::seq_lib::group_to_multiset_ensures;

        crate::tr_ops::lemma_sort_multiset(c.trs_at(x), false);
        assert(s.trs_at(x).contains(t) <==> s.trs_at(x).to_multiset().count(t) > 0);
        assert(c.trs_at(x).contains(t) <==> c.trs_at(x).to_multiset().count(t) > 0);
    }
}

/// Making the transitions unique keeps them.
pub proof fn lemma_unique_same(q: &VectorFst, f: &VectorFst)
    requires
        unique_of(q, f),
    ensures
        same_transitions(q, f),
{
    assert forall|x: usize, t: Tr| (x as int) < q.n() implies (#[trigger] f.trs_at(x).contains(t) <==> q.trs_at(
        x,
    ).contains(t)) by {
        crate::tr_ops::lemma_unique_same(q.trs_at(x), t);
    }
}

} // verus!
