use vstd::prelude::*;

use crate::acyclic::lemma_state_sig_eq;
use crate::acyclic::sig_congruence;
use crate::comparator::final_code;
use crate::comparator::lemma_ilabel_hash_labels;
use crate::cyclic::pre_key;
use crate::hopcroft::same_profile;
use crate::hopcroft::splits_by_profile;
use crate::stability::class_set;
use crate::stability::tr_into;
use crate::connect::connect_result;
use crate::connect::kept;
use crate::connect::kept_before;
use crate::connect::lemma_succ_edge;
use crate::fst::WEIGHT_ONE;
use crate::graph::lemma_closed_walk;
use crate::language::lemma_connect_accepts;
use crate::language::lemma_merge_accepts;
use crate::language::lemma_merged_trs_from;
use crate::language::lemma_same_transitions_accepts;
use crate::language::lemma_sorted_same;
use crate::language::lemma_unique_same;
use crate::merge::lemma_rep;
use crate::merge::members_of;
use crate::merge::merged;
use crate::merge::rep_of;
use crate::minimize::acceptor_minimized;
use crate::minimize::ilabel_sorted_of;
use crate::minimize::minimized_from;
use crate::partition::Partition;
use crate::tr_ops::insert_sorted;
use crate::tr_ops::lemma_insert_sorted_multiset;
use crate::tr_ops::lemma_sort_multiset;
use crate::tr_ops::lemma_sort_sorted;
use crate::tr_ops::sort_trs;
use crate::fst::Tr;
use crate::fst::VectorFst;
use crate::fst::WEIGHT_ZERO;
use crate::graph::edge;
use crate::graph::is_walk;
use crate::graph::reaches;
use crate::language::accepting;
use crate::language::accepts;
use crate::tr_ops::key_sorted;
use crate::tr_ops::label_functional;
use crate::tr_ops::tr_key_lt;

verus! {

/// States `x` and `y` accept the same words.
pub open spec fn same_lang(f: &VectorFst, x: usize, y: usize) -> bool {
    forall|w: Seq<usize>| #![trigger accepts(f, x, w)] #![trigger accepts(f, y, w)] accepts(f, x, w) == accepts(f, y, w)
}

/// No two states of `f` accept the same words.
pub open spec fn no_equivalent_states(f: &VectorFst) -> bool {
    forall|a: usize, b: usize| (a as int) < f.n() && (b as int) < f.n() && a != b ==> !#[trigger] same_lang(f, a, b)
}

/// The transitions of every state are sorted by input label.
pub open spec fn ilabel_sorted(f: &VectorFst) -> bool {
    forall|t: usize| (t as int) < f.n() ==> key_sorted(#[trigger] f.trs_at(t), false)
}

/// No accessible state has final weight `Zero`.
pub open spec fn no_zero_final(f: &VectorFst) -> bool {
    forall|s: usize| (s as int) < f.n() && #[trigger] f.accessible(s) ==> f.final_at(s) != Some(WEIGHT_ZERO)
}

/// State `t` accepts some word.
pub open spec fn accepts_some(f: &VectorFst, t: usize) -> bool {
    exists|w: Seq<usize>| #[trigger] accepts(f, t, w)
}

/// Every state accepts some word.
pub open spec fn live(f: &VectorFst) -> bool {
    forall|t: usize| (t as int) < f.n() ==> #[trigger] accepts_some(f, t)
}

/// The first vertex of a walk that ends in an accepting state accepts a word.
pub proof fn lemma_walk_accepts(f: &VectorFst, p: Seq<usize>)
    requires
        is_walk(f.succ_graph(), p),
        accepting(f, p.last()),
    ensures
        exists|w: Seq<usize>| #[trigger] accepts(f, p[0], w),
    decreases p.len(),
{
    let g = f.succ_graph();
    if p.len() == 1 {
        assert(accepts(f, p[0], Seq::<usize>::empty()));
    } else {
        let q = p.drop_first();
        assert(is_walk(g, q)) by {
            assert forall|i: int| 0 <= i < q.len() - 1 implies #[trigger] edge(g, q[i], q[i + 1]) by {
                assert(edge(g, p[i + 1], p[i + 1 + 1]));
            }
        }
        lemma_walk_accepts(f, q);
        let w = choose|w: Seq<usize>| #[trigger] accepts(f, q[0], w);
        assert(edge(g, p[0], p[1]));
        lemma_succ_edge(*f, p[0], p[1]);
        let j = choose|j: int| 0 <= j < f.trs_of(p[0] as int).len() && #[trigger] f.trs_of(p[0] as int)[j].nextstate == p[1];
        let l = f.trs_at(p[0])[j].ilabel;
        let v = seq![l] + w;
        assert(v.drop_first() =~= w);
        assert(f.trs_at(p[0])[j].nextstate == q[0]);
        assert(accepts(f, p[0], v));
    }
}

/// A connected fst without final weight `Zero` is live.
pub proof fn lemma_connected_live(f: &VectorFst)
    requires
        f.is_connected(),
        forall|x: usize| (x as int) < f.n() ==> #[trigger] f.final_at(x) != Some(WEIGHT_ZERO),
    ensures
        live(f),
{
    let g = f.succ_graph();
    assert forall|t: usize| (t as int) < f.n() implies #[trigger] accepts_some(f, t) by {
        assert(f.accessible(t));
        assert(f.coaccessible(t));
        let fin = choose|fin: usize| (fin as int) < f.n() && f.final_of(fin as int) is Some && #[trigger] reaches(g, t, fin);
        let p = choose|p: Seq<usize>| #[trigger] is_walk(g, p) && p[0] == t && p.last() == fin;
        assert(f.final_at(fin) != Some(WEIGHT_ZERO));
        lemma_walk_accepts(f, p);
    }
}

/// On a deterministic fst, a word starting with the label of a transition is
/// accepted exactly when its rest is accepted from the destination.
pub proof fn lemma_det_step(f: &VectorFst, x: usize, i: int, w: Seq<usize>)
    requires
        f.is_i_deterministic(),
        (x as int) < f.n(),
        0 <= i < f.trs_at(x).len(),
    ensures
        accepts(f, x, seq![f.trs_at(x)[i].ilabel] + w) == accepts(f, f.trs_at(x)[i].nextstate, w),
{
    let l = f.trs_at(x)[i].ilabel;
    let v = seq![l] + w;
    assert(v.drop_first() =~= w);
    assert(v[0] == l);
    if accepts(f, x, v) {
        let j = choose|j: int|
            0 <= j < f.trs_at(x).len() && (#[trigger] f.trs_at(x)[j]).ilabel == v[0] && accepts(
                f,
                f.trs_at(x)[j].nextstate,
                v.drop_first(),
            );
        if j < i {
            assert(f.trs_at(x)[j].ilabel != f.trs_at(x)[i].ilabel);
        } else if i < j {
            assert(f.trs_at(x)[i].ilabel != f.trs_at(x)[j].ilabel);
        }
    }
}

/// In a live fst, a state has a transition with label `l` exactly when it
/// accepts a word starting with `l`.
pub proof fn lemma_has_label(f: &VectorFst, x: usize, l: usize)
    requires
        f.wf(),
        live(f),
        (x as int) < f.n(),
    ensures
        has_label(f.trs_at(x), l) <==> (exists|w: Seq<usize>| #[trigger] accepts(f, x, seq![l] + w)),
{
    if has_label(f.trs_at(x), l) {
        let i = choose|i: int| 0 <= i < f.trs_at(x).len() && (#[trigger] f.trs_at(x)[i]).ilabel == l;
        let t = f.trs_at(x)[i].nextstate;
        assert((t as int) < f.n());
        assert(accepts_some(f, t));
        let w = choose|w: Seq<usize>| #[trigger] accepts(f, t, w);
        let v = seq![l] + w;
        assert(v.drop_first() =~= w);
        assert(accepts(f, x, v));
    }
    if exists|w: Seq<usize>| #[trigger] accepts(f, x, seq![l] + w) {
        let w = choose|w: Seq<usize>| #[trigger] accepts(f, x, seq![l] + w);
        let v = seq![l] + w;
        assert(v[0] == l);
    }
}

/// Some transition of `s` has input label `l`.
pub open spec fn has_label(s: Seq<Tr>, l: usize) -> bool {
    exists|i: int| 0 <= i < s.len() && (#[trigger] s[i]).ilabel == l
}

/// The labels of `s` strictly increase.
pub open spec fn labels_increasing(s: Seq<Tr>) -> bool {
    forall|i: int, j: int| #![trigger s[i], s[j]] 0 <= i < j < s.len() ==> s[i].ilabel < s[j].ilabel
}

/// Two sequences with strictly increasing labels that carry the same labels
/// carry them at the same positions.
pub proof fn lemma_same_labels(a: Seq<Tr>, b: Seq<Tr>)
    requires
        labels_increasing(a),
        labels_increasing(b),
        forall|l: usize| #[trigger] has_label(a, l) <==> has_label(b, l),
    ensures
        a.len() == b.len(),
        forall|i: int| 0 <= i < a.len() ==> (#[trigger] a[i]).ilabel == b[i].ilabel,
    decreases a.len() + b.len(),
{
    if a.len() == 0 && b.len() > 0 {
        assert(has_label(b, b[0].ilabel));
        assert(!has_label(a, b[0].ilabel));
    } else if b.len() == 0 && a.len() > 0 {
        assert(has_label(a, a[0].ilabel));
        assert(!has_label(b, a[0].ilabel));
    } else if a.len() > 0 && b.len() > 0 {
        let la = a.last().ilabel;
        let lb = b.last().ilabel;
        assert(has_label(a, la)) by {
            assert(a[a.len() - 1].ilabel == la);
        }
        assert(has_label(b, lb)) by {
            assert(b[b.len() - 1].ilabel == lb);
        }
        assert(has_label(b, la));
        assert(has_label(a, lb));
        let jb = choose|j: int| 0 <= j < b.len() && (#[trigger] b[j]).ilabel == la;
        let ia = choose|i: int| 0 <= i < a.len() && (#[trigger] a[i]).ilabel == lb;
        if jb < b.len() - 1 {
            assert(b[jb].ilabel < b[b.len() - 1].ilabel);
        }
        if ia < a.len() - 1 {
            assert(a[ia].ilabel < a[a.len() - 1].ilabel);
        }
        assert(la == lb);
        let a2 = a.drop_last();
        let b2 = b.drop_last();
        assert forall|l: usize| #[trigger] has_label(a2, l) <==> has_label(b2, l) by {
            if has_label(a2, l) {
                let i = choose|i: int| 0 <= i < a2.len() && (#[trigger] a2[i]).ilabel == l;
                assert(a[i] == a2[i]);
                assert(a[i].ilabel < a[a.len() - 1].ilabel);
                assert(has_label(a, l));
                assert(has_label(b, l));
                let j = choose|j: int| 0 <= j < b.len() && (#[trigger] b[j]).ilabel == l;
                assert(j != b.len() - 1);
                assert(b2[j] == b[j]);
            }
            if has_label(b2, l) {
                let j = choose|j: int| 0 <= j < b2.len() && (#[trigger] b2[j]).ilabel == l;
                assert(b[j] == b2[j]);
                assert(b[j].ilabel < b[b.len() - 1].ilabel);
                assert(has_label(b, l));
                assert(has_label(a, l));
                let i = choose|i: int| 0 <= i < a.len() && (#[trigger] a[i]).ilabel == l;
                assert(i != a.len() - 1);
                assert(a2[i] == a[i]);
            }
        }
        assert(labels_increasing(a2)) by {
            assert forall|i: int, j: int| #![trigger a2[i], a2[j]] 0 <= i < j < a2.len() implies a2[i].ilabel < a2[j].ilabel by {
                assert(a2[i] == a[i] && a2[j] == a[j]);
            }
        }
        assert(labels_increasing(b2)) by {
            assert forall|i: int, j: int| #![trigger b2[i], b2[j]] 0 <= i < j < b2.len() implies b2[i].ilabel < b2[j].ilabel by {
                assert(b2[i] == b[i] && b2[j] == b[j]);
            }
        }
        lemma_same_labels(a2, b2);
        assert forall|i: int| 0 <= i < a.len() implies (#[trigger] a[i]).ilabel == b[i].ilabel by {
            if i < a.len() - 1 {
                assert(a[i] == a2[i] && b[i] == b2[i]);
            }
        }
    }
}

/// Sorted labels without repeats increase strictly.
pub proof fn lemma_sorted_distinct_increasing(s: Seq<Tr>)
    requires
        key_sorted(s, false),
        forall|i: int, j: int| #![trigger s[i], s[j]] 0 <= i < j < s.len() ==> s[i].ilabel != s[j].ilabel,
    ensures
        labels_increasing(s),
{
    assert forall|i: int, j: int| #![trigger s[i], s[j]] 0 <= i < j < s.len() implies s[i].ilabel < s[j].ilabel by {
        assert(!tr_key_lt(s[j], s[i], false));
    }
}

/// In a live deterministic fst whose transitions are sorted by label and
/// whose final weights are `One` or absent, states that accept the same
/// words have the same signature; so a partition that splits the states
/// exactly by signature puts them in one class.
pub proof fn lemma_nerode(f: &VectorFst, p: Partition, r: spec_fn(usize) -> nat, x: usize, y: usize)
    requires
        f.wf(),
        f.is_i_deterministic(),
        f.is_ranking(r),
        live(f),
        forall|t: usize| (t as int) < f.n() ==> key_sorted(#[trigger] f.trs_at(t), false),
        forall|t: usize| (t as int) < f.n() ==> (#[trigger] f.final_at(t) is None || f.final_at(t) == Some(WEIGHT_ONE)),
        p.wf(),
        p.len() == f.n(),
        sig_congruence(f, p),
        (x as int) < f.n(),
        (y as int) < f.n(),
        same_lang(f, x, y),
    ensures
        p.class_at(x) == p.class_at(y),
    decreases r(x),
{
    let tx = f.trs_at(x);
    let ty = f.trs_at(y);
    assert(accepts(f, x, Seq::<usize>::empty()) == accepts(f, y, Seq::<usize>::empty()));
    assert(final_code(f, x) == final_code(f, y)) by {
        assert(f.final_at(x) is None || f.final_at(x) == Some(WEIGHT_ONE));
        assert(f.final_at(y) is None || f.final_at(y) == Some(WEIGHT_ONE));
    }
    assert forall|a: int, b: int| #![trigger tx[a], tx[b]] 0 <= a < b < tx.len() implies tx[a].ilabel != tx[b].ilabel by {}
    assert forall|a: int, b: int| #![trigger ty[a], ty[b]] 0 <= a < b < ty.len() implies ty[a].ilabel != ty[b].ilabel by {}
    lemma_sorted_distinct_increasing(tx);
    lemma_sorted_distinct_increasing(ty);
    assert forall|l: usize| #[trigger] has_label(tx, l) <==> has_label(ty, l) by {
        lemma_has_label(f, x, l);
        lemma_has_label(f, y, l);
        if has_label(tx, l) {
            let w = choose|w: Seq<usize>| #[trigger] accepts(f, x, seq![l] + w);
            assert(accepts(f, y, seq![l] + w));
        }
        if has_label(ty, l) {
            let w = choose|w: Seq<usize>| #[trigger] accepts(f, y, seq![l] + w);
            assert(accepts(f, x, seq![l] + w));
        }
    }
    lemma_same_labels(tx, ty);
    assert forall|i: int| 0 <= i < tx.len() implies (#[trigger] tx[i]).ilabel == ty[i].ilabel && p.class_at(tx[i].nextstate)
        == p.class_at(ty[i].nextstate) by {
        let x2 = tx[i].nextstate;
        let y2 = ty[i].nextstate;
        let l = tx[i].ilabel;
        assert forall|w: Seq<usize>| #![trigger accepts(f, x2, w)] #![trigger accepts(f, y2, w)] accepts(f, x2, w) == accepts(f, y2, w) by {
            lemma_det_step(f, x, i, w);
            lemma_det_step(f, y, i, w);
            assert(accepts(f, x, seq![l] + w) == accepts(f, y, seq![l] + w));
        }
        assert(r(x2) < r(x));
        lemma_nerode(f, p, r, x2, y2);
    }
    lemma_state_sig_eq(f, p, x, y);
}

/// States that accept the same words share a class of `p`.
pub open spec fn lang_together(f: &VectorFst, p: Partition) -> bool {
    forall|x: usize, y: usize|
        (x as int) < f.n() && (y as int) < f.n() && #[trigger] same_lang(f, x, y) ==> p.class_at(x) == p.class_at(y)
}

/// States that accept the same words have the same pre-partition key.
pub open spec fn pre_keys_respect_lang(f: &VectorFst) -> bool {
    forall|x: usize, y: usize|
        (x as int) < f.n() && (y as int) < f.n() && #[trigger] same_lang(f, x, y) ==> pre_key(f, x) == pre_key(f, y)
}

/// In a live deterministic fst whose equivalent states share classes, a
/// state equivalent to one with an `l` transition into class `b` has one too.
pub proof fn lemma_equivalent_into(f: &VectorFst, p: Partition, b: int, x: usize, y: usize, l: usize)
    requires
        f.wf(),
        f.is_i_deterministic(),
        live(f),
        lang_together(f, p),
        (x as int) < f.n(),
        (y as int) < f.n(),
        same_lang(f, x, y),
        tr_into(f, x, l, class_set(f, p, b)),
    ensures
        tr_into(f, y, l, class_set(f, p, b)),
{
    let cs = class_set(f, p, b);
    let i = choose|i: int| 0 <= i < f.trs_at(x).len() && (#[trigger] f.trs_at(x)[i]).ilabel == l && cs.contains(f.trs_at(x)[i].nextstate);
    let t = f.trs_at(x)[i].nextstate;
    assert((t as int) < f.n());
    assert(accepts_some(f, t));
    let w = choose|w: Seq<usize>| #[trigger] accepts(f, t, w);
    lemma_det_step(f, x, i, w);
    let v = seq![l] + w;
    assert(accepts(f, y, v));
    assert(v[0] == l);
    assert(v.drop_first() =~= w);
    let j = choose|j: int|
        0 <= j < f.trs_at(y).len() && (#[trigger] f.trs_at(y)[j]).ilabel == v[0] && accepts(f, f.trs_at(y)[j].nextstate, v.drop_first());
    let t2 = f.trs_at(y)[j].nextstate;
    assert((t2 as int) < f.n());
    assert forall|u: Seq<usize>| #![trigger accepts(f, t, u)] #![trigger accepts(f, t2, u)] accepts(f, t, u) == accepts(f, t2, u) by {
        lemma_det_step(f, x, i, u);
        lemma_det_step(f, y, j, u);
        assert(accepts(f, x, seq![l] + u) == accepts(f, y, seq![l] + u));
    }
    assert(same_lang(f, t, t2));
    assert(p.class_at(t) == p.class_at(t2));
    assert(cs.contains(t2));
}

/// Processing a splitter keeps equivalent states together.
pub proof fn lemma_lang_together_step(f: &VectorFst, p0: Partition, p1: Partition, c: int)
    requires
        f.wf(),
        f.is_i_deterministic(),
        live(f),
        lang_together(f, p0),
        splits_by_profile(f, p0, p1, class_set(f, p0, c)),
    ensures
        lang_together(f, p1),
{
    let cs = class_set(f, p0, c);
    assert forall|x: usize, y: usize| (x as int) < f.n() && (y as int) < f.n() && #[trigger] same_lang(f, x, y) implies p1.class_at(x)
        == p1.class_at(y) by {
        assert(same_lang(f, y, x));
        assert forall|l: usize| #![trigger tr_into(f, x, l, cs)] #![trigger tr_into(f, y, l, cs)] tr_into(f, x, l, cs) == tr_into(f, y, l, cs) by {
            if tr_into(f, x, l, cs) {
                lemma_equivalent_into(f, p0, c, x, y, l);
            }
            if tr_into(f, y, l, cs) {
                lemma_equivalent_into(f, p0, c, y, x, l);
            }
        }
        assert(same_profile(f, cs, x, y));
        assert(p0.class_at(x) == p0.class_at(y));
    }
}

/// In a live deterministic fst whose transitions are sorted by label and
/// whose final weights are `One` or absent, states that accept the same
/// words have the same pre-partition key.
pub proof fn lemma_sorted_pre_keys(f: &VectorFst)
    requires
        f.wf(),
        f.is_i_deterministic(),
        live(f),
        forall|t: usize| (t as int) < f.n() ==> key_sorted(#[trigger] f.trs_at(t), false),
        forall|t: usize| (t as int) < f.n() ==> (#[trigger] f.final_at(t) is None || f.final_at(t) == Some(WEIGHT_ONE)),
    ensures
        pre_keys_respect_lang(f),
{
    assert forall|x: usize, y: usize| (x as int) < f.n() && (y as int) < f.n() && #[trigger] same_lang(f, x, y) implies pre_key(
        f,
        x,
    ) == pre_key(f, y) by {
        let tx = f.trs_at(x);
        let ty = f.trs_at(y);
        assert(accepts(f, x, Seq::<usize>::empty()) == accepts(f, y, Seq::<usize>::empty()));
        assert(f.final_at(x) is None || f.final_at(x) == Some(WEIGHT_ONE));
        assert(f.final_at(y) is None || f.final_at(y) == Some(WEIGHT_ONE));
        assert forall|a: int, b: int| #![trigger tx[a], tx[b]] 0 <= a < b < tx.len() implies tx[a].ilabel != tx[b].ilabel by {}
        assert forall|a: int, b: int| #![trigger ty[a], ty[b]] 0 <= a < b < ty.len() implies ty[a].ilabel != ty[b].ilabel by {}
        lemma_sorted_distinct_increasing(tx);
        lemma_sorted_distinct_increasing(ty);
        assert forall|l: usize| #[trigger] has_label(tx, l) <==> has_label(ty, l) by {
            lemma_has_label(f, x, l);
            lemma_has_label(f, y, l);
            if has_label(tx, l) {
                let w = choose|w: Seq<usize>| #[trigger] accepts(f, x, seq![l] + w);
                assert(accepts(f, y, seq![l] + w));
            }
            if has_label(ty, l) {
                let w = choose|w: Seq<usize>| #[trigger] accepts(f, y, seq![l] + w);
                assert(accepts(f, x, seq![l] + w));
            }
        }
        lemma_same_labels(tx, ty);
        lemma_ilabel_hash_labels(tx, ty, tx.len() as int);
    }
}

/// Sorting the transitions by input label keeps them, keeps a deterministic
/// fst deterministic and an acceptor with weights `One` so, and leaves them
/// sorted by input label.
pub proof fn lemma_sorted_of_props(c: &VectorFst, s: &VectorFst)
    requires
        ilabel_sorted_of(c, s),
    ensures
        crate::tr_ops::same_transitions(c, s),
        c.wf() ==> s.wf(),
        forall|x: usize| #[trigger] s.accessible(x) == c.accessible(x),
        forall|x: usize| #[trigger] s.coaccessible(x) == c.coaccessible(x),
        c.is_i_deterministic() ==> s.is_i_deterministic(),
        c.is_acceptor() && c.has_unit_weights() ==> s.is_acceptor() && s.has_unit_weights(),
        ilabel_sorted(s),
{
    lemma_sorted_same(c, s);
    crate::tr_ops::lemma_same_transitions(c, s);
    assert forall|t: usize| (t as int) < s.n() implies key_sorted(#[trigger] s.trs_at(t), false) by {
        lemma_sort_sorted(c.trs_at(t), false);
    }
    if c.is_i_deterministic() {
        assert forall|t: usize, i: int, j: int|
            #![trigger s.trs_at(t)[i], s.trs_at(t)[j]]
            (t as int) < s.n() && 0 <= i < j < s.trs_at(t).len() implies s.trs_at(t)[i].ilabel != s.trs_at(t)[j].ilabel by {
            let ct = c.trs_at(t);
            assert forall|a: int, b: int| #![trigger ct[a], ct[b]] 0 <= a < b < ct.len() implies ct[a].ilabel != ct[b].ilabel by {}
            lemma_sort_distinct(ct);
            assert(s.trs_at(t) == sort_trs(ct, false));
        }
    }
    if c.is_acceptor() && c.has_unit_weights() {
        assert forall|t: usize, i: int| (t as int) < s.n() && 0 <= i < s.trs_at(t).len() implies (#[trigger] s.trs_at(t)[i]).ilabel
            == s.trs_at(t)[i].olabel && s.trs_at(t)[i].weight == WEIGHT_ONE by {
            let e = s.trs_at(t)[i];
            assert(s.trs_at(t).contains(e));
            assert(c.trs_at(t).contains(e));
            let k = choose|k: int| 0 <= k < c.trs_at(t).len() && c.trs_at(t)[k] == e;
        }
    }
}

/// In the merged fst only representatives can be reached from the start.
pub proof fn lemma_merged_accessible_reps(s: &VectorFst, p: Partition, m: &VectorFst, x: usize)
    requires
        s.wf(),
        p.wf(),
        p.nonempty(),
        p.len() == s.n(),
        merged(s, p, m),
        s.start is Some,
        m.accessible(x),
    ensures
        x == rep_of(p, p.class_at(x)),
{
    let n = s.n();
    let g = m.succ_graph();
    let mark = Seq::new(n as nat, |i: int| (i as usize) == rep_of(p, p.class_at(i as usize)));
    s.lemma_n_bound();
    assert forall|a: usize, b: usize| (a as int) < g.len() && mark[a as int] && #[trigger] edge(g, a, b) implies mark[b as int] by {
        lemma_succ_edge(*m, a, b);
        let j = choose|j: int| 0 <= j < m.trs_of(a as int).len() && #[trigger] m.trs_of(a as int)[j].nextstate == b;
        crate::merge::lemma_member(p, a);
        let ms = members_of(p, p.class_at(a));
        assert(m.trs_at(a) == crate::merge::merged_trs(s, p, ms));
        lemma_merged_trs_from(s, p, ms, j);
        let (k, j2) = choose|k: int, j2: int|
            0 <= k < ms.len() && 0 <= j2 < s.trs_at(ms[k]).len() && crate::merge::merged_trs(s, p, ms)[j] == crate::merge::remap_tr(
                p,
                #[trigger] s.trs_at(ms[k])[j2],
            );
        let z = ms[k];
        assert(ms.contains(z));
        crate::merge::lemma_member_of(p, p.class_at(a), z);
        let y = s.trs_at(z)[j2].nextstate;
        assert((y as int) < n);
        crate::merge::lemma_member(p, y);
        lemma_rep(p, p.class_at(y));
        assert(b == rep_of(p, p.class_at(y)));
        assert(p.class_at(b) == p.class_at(y));
        assert((b as int) < n);
    }
    let st = s.start.unwrap();
    crate::merge::lemma_member(p, st);
    lemma_rep(p, p.class_at(st));
    let r0 = rep_of(p, p.class_at(st));
    assert(mark[r0 as int]);
    let w = choose|w: Seq<usize>| #[trigger] is_walk(g, w) && w[0] == r0 && w.last() == x;
    lemma_closed_walk(g, mark, w);
}

/// Inserting a transition whose label no transition of a sorted sequence
/// has keeps the labels apart.
pub proof fn lemma_insert_sorted_distinct(r: Seq<Tr>, x: Tr)
    requires
        forall|i: int, j: int| #![trigger r[i], r[j]] 0 <= i < j < r.len() ==> r[i].ilabel != r[j].ilabel,
        forall|i: int| 0 <= i < r.len() ==> (#[trigger] r[i]).ilabel != x.ilabel,
    ensures
        forall|i: int, j: int|
            #![trigger insert_sorted(r, x, false)[i], insert_sorted(r, x, false)[j]]
            0 <= i < j < insert_sorted(r, x, false).len() ==> insert_sorted(r, x, false)[i].ilabel != insert_sorted(
                r,
                x,
                false,
            )[j].ilabel,
    decreases r.len(),
{
    broadcast use vstd::seq_lib::group_to_multiset_ensures;

    let v = insert_sorted(r, x, false);
    if r.len() > 0 && tr_key_lt(x, r.last(), false) {
        let u = r.drop_last();
        assert forall|i: int, j: int| #![trigger u[i], u[j]] 0 <= i < j < u.len() implies u[i].ilabel != u[j].ilabel by {
            assert(u[i] == r[i] && u[j] == r[j]);
        }
        assert forall|i: int| 0 <= i < u.len() implies (#[trigger] u[i]).ilabel != x.ilabel by {
            assert(u[i] == r[i]);
        }
        lemma_insert_sorted_distinct(u, x);
        lemma_insert_sorted_multiset(u, x, false);
        let w = insert_sorted(u, x, false);
        assert forall|i: int, j: int| #![trigger v[i], v[j]] 0 <= i < j < v.len() implies v[i].ilabel != v[j].ilabel by {
            if j < w.len() {
                assert(v[i] == w[i] && v[j] == w[j]);
            } else {
                assert(v[j] == r.last());
                let e = w[i];
                assert(v[i] == e);
                assert(w.contains(e));
                assert(w.to_multiset().count(e) > 0);
                if e != x {
                    assert(u.to_multiset().count(e) > 0);
                    assert(u.contains(e));
                    let k = choose|k: int| 0 <= k < u.len() && u[k] == e;
                    assert(r[k] == e);
                    assert(r[r.len() - 1] == r.last());
                } else {
                    assert(r[r.len() - 1] == r.last());
                }
            }
        }
    } else if r.len() > 0 {
        assert forall|i: int, j: int| #![trigger v[i], v[j]] 0 <= i < j < v.len() implies v[i].ilabel != v[j].ilabel by {
            if j < r.len() {
                assert(v[i] == r[i] && v[j] == r[j]);
            } else {
                assert(v[i] == r[i]);
            }
        }
    }
}

/// Sorting keeps the labels of a deterministic state apart.
pub proof fn lemma_sort_distinct(t: Seq<Tr>)
    requires
        forall|i: int, j: int| #![trigger t[i], t[j]] 0 <= i < j < t.len() ==> t[i].ilabel != t[j].ilabel,
    ensures
        forall|i: int, j: int|
            #![trigger sort_trs(t, false)[i], sort_trs(t, false)[j]]
            0 <= i < j < sort_trs(t, false).len() ==> sort_trs(t, false)[i].ilabel != sort_trs(t, false)[j].ilabel,
    decreases t.len(),
{
    broadcast use vstd::seq_lib::group_to_multiset_ensures;

    if t.len() > 0 {
        let u = t.drop_last();
        assert forall|i: int, j: int| #![trigger u[i], u[j]] 0 <= i < j < u.len() implies u[i].ilabel != u[j].ilabel by {
            assert(u[i] == t[i] && u[j] == t[j]);
        }
        lemma_sort_distinct(u);
        let r = sort_trs(u, false);
        lemma_sort_multiset(u, false);
        assert forall|i: int| 0 <= i < r.len() implies (#[trigger] r[i]).ilabel != t.last().ilabel by {
            let e = r[i];
            assert(r.contains(e));
            assert(r.to_multiset().count(e) > 0);
            assert(u.contains(e));
            let k = choose|k: int| 0 <= k < u.len() && u[k] == e;
            assert(t[k] == e);
            assert(t[t.len() - 1] == t.last());
        }
        lemma_insert_sorted_distinct(r, t.last());
    }
}

/// Two fsts with the same transitions are connected together.
pub proof fn lemma_same_connected(c: &VectorFst, s: &VectorFst)
    requires
        crate::tr_ops::same_transitions(c, s),
        c.is_connected(),
    ensures
        s.is_connected(),
{
    crate::tr_ops::lemma_same_transitions(c, s);
    assert forall|x: usize| (x as int) < s.n() implies #[trigger] s.accessible(x) && s.coaccessible(x) by {
        assert(c.accessible(x));
        assert(c.coaccessible(x));
    }
}

/// On the acyclic path, minimizing a deterministic unweighted acceptor
/// whose accessible states have no final weight `Zero` leaves no two states
/// that accept the same words.
pub proof fn lemma_acyclic_minimal(f0: VectorFst, f: VectorFst)
    requires
        f0.wf(),
        f0.is_i_deterministic(),
        f0.is_unweighted(),
        f0.acyclic(),
        no_zero_final(&f0),
        acceptor_minimized(f0, true, f),
    ensures
        no_equivalent_states(&f),
{
    let c = choose|c: VectorFst|
        #[trigger] connect_result(f0, c) && c.wf() && (c.n() == 0 ==> f == c) && (c.n() > 0 ==> minimized_from(&c, true, &f));
    if c.n() > 0 {
        f0.lemma_n_bound();
        crate::connect::lemma_kept_before_le(f0, f0.n());
        crate::connect::lemma_connect_connected(f0, c);
        crate::connect::lemma_connect_det(f0, c);
        crate::connect::lemma_connect_acyclic(f0, c);
        assert(c.accessible(0));
        assert forall|t: usize| (t as int) < c.n() implies (#[trigger] c.final_at(t) is None || c.final_at(t) == Some(WEIGHT_ONE)) by {
            crate::connect::lemma_kept_before_onto(f0, f0.n(), t as int);
            let s0 = choose|s0: usize| (s0 as int) < f0.n() && kept(f0, s0) && kept_before(f0, s0 as int) == t;
            assert(c.trs_of(kept_before(f0, s0 as int) as int) == crate::connect::kept_trs(f0, f0.trs_of(s0 as int)));
            assert(f0.accessible(s0));
            assert(c.final_at(t) == f0.final_at(s0));
        }
        let (s, p, m, q) = choose|s: VectorFst, p: Partition, m: VectorFst, q: VectorFst|
            crate::minimize::minimized_via(&c, true, &f, s, p, m, q);
        lemma_sorted_same(&c, &s);
        crate::tr_ops::lemma_same_transitions(&c, &s);
        lemma_same_connected(&c, &s);
        assert forall|t: usize| (t as int) < s.n() implies (#[trigger] s.final_at(t) is None || s.final_at(t) == Some(WEIGHT_ONE)) by {
            assert(s.final_at(t) == c.final_at(t));
            assert(c.final_at(t) is None || c.final_at(t) == Some(WEIGHT_ONE));
        }
        assert forall|t: usize| (t as int) < s.n() implies #[trigger] s.final_at(t) != Some(WEIGHT_ZERO) by {
            assert(s.final_at(t) is None || s.final_at(t) == Some(WEIGHT_ONE));
        }
        lemma_connected_live(&s);
        assert forall|t: usize| (t as int) < s.n() implies key_sorted(#[trigger] s.trs_at(t), false) by {
            lemma_sort_sorted(c.trs_at(t), false);
        }
        assert(s.is_i_deterministic()) by {
            assert forall|t: usize, i: int, j: int|
                #![trigger s.trs_at(t)[i], s.trs_at(t)[j]]
                (t as int) < s.n() && 0 <= i < j < s.trs_at(t).len() implies s.trs_at(t)[i].ilabel != s.trs_at(t)[j].ilabel by {
                let ct = c.trs_at(t);
                assert forall|a: int, b: int| #![trigger ct[a], ct[b]] 0 <= a < b < ct.len() implies ct[a].ilabel != ct[b].ilabel by {}
                lemma_sort_distinct(ct);
                assert(s.trs_at(t) == sort_trs(ct, false));
            }
        }
        let r = choose|r: spec_fn(usize) -> nat| #[trigger] s.is_ranking(r);
        crate::language::lemma_sig_congruence_bisim(&s, p);
        lemma_unique_same(&q, &f);
        m.lemma_n_bound();
        crate::connect::lemma_kept_before_le(m, m.n());
        assert forall|a: usize, b: usize| (a as int) < f.n() && (b as int) < f.n() && a != b implies !#[trigger] same_lang(&f, a, b) by {
            crate::connect::lemma_kept_before_onto(m, m.n(), a as int);
            crate::connect::lemma_kept_before_onto(m, m.n(), b as int);
            let xa = choose|xa: usize| (xa as int) < m.n() && kept(m, xa) && kept_before(m, xa as int) == a;
            let xb = choose|xb: usize| (xb as int) < m.n() && kept(m, xb) && kept_before(m, xb as int) == b;
            lemma_merged_accessible_reps(&s, p, &m, xa);
            lemma_merged_accessible_reps(&s, p, &m, xb);
            assert(xa != xb);
            assert(p.class_at(xa) != p.class_at(xb));
            if same_lang(&s, xa, xb) {
                lemma_nerode(&s, p, r, xa, xb);
            }
            let w = choose|w: Seq<usize>| accepts(&s, xa, w) != accepts(&s, xb, w);
            lemma_merge_accepts(&s, p, &m, xa, w);
            lemma_merge_accepts(&s, p, &m, xb, w);
            lemma_connect_accepts(m, q, xa, w);
            lemma_connect_accepts(m, q, xb, w);
            assert(kept_before(m, xa as int) as usize == a);
            assert(kept_before(m, xb as int) as usize == b);
            lemma_same_transitions_accepts(&q, &f, a, w);
            lemma_same_transitions_accepts(&q, &f, b, w);
            assert(accepts(&f, a, w) != accepts(&f, b, w));
        }
    }
}


/// On the cyclic path, minimizing a deterministic unweighted acceptor whose
/// accessible states have no final weight `Zero` leaves no two states that
/// accept the same words.
pub proof fn lemma_cyclic_minimal(f0: VectorFst, f: VectorFst)
    requires
        f0.wf(),
        f0.is_i_deterministic(),
        f0.is_unweighted(),
        no_zero_final(&f0),
        acceptor_minimized(f0, false, f),
    ensures
        no_equivalent_states(&f),
{
    let c = choose|c: VectorFst|
        #[trigger] connect_result(f0, c) && c.wf() && (c.n() == 0 ==> f == c) && (c.n() > 0 ==> minimized_from(&c, false, &f));
    if c.n() > 0 {
        f0.lemma_n_bound();
        crate::connect::lemma_kept_before_le(f0, f0.n());
        crate::connect::lemma_connect_connected(f0, c);
        crate::connect::lemma_connect_det(f0, c);
        assert(c.accessible(0));
        assert forall|t: usize| (t as int) < c.n() implies (#[trigger] c.final_at(t) is None || c.final_at(t) == Some(WEIGHT_ONE)) by {
            crate::connect::lemma_kept_before_onto(f0, f0.n(), t as int);
            let s0 = choose|s0: usize| (s0 as int) < f0.n() && kept(f0, s0) && kept_before(f0, s0 as int) == t;
            assert(c.trs_of(kept_before(f0, s0 as int) as int) == crate::connect::kept_trs(f0, f0.trs_of(s0 as int)));
            assert(f0.accessible(s0));
            assert(c.final_at(t) == f0.final_at(s0));
        }
        let (s, p, m, q) = choose|s: VectorFst, p: Partition, m: VectorFst, q: VectorFst|
            crate::minimize::minimized_via(&c, false, &f, s, p, m, q);
        lemma_sorted_of_props(&c, &s);
        lemma_same_connected(&c, &s);
        assert forall|t: usize| (t as int) < s.n() implies (#[trigger] s.final_at(t) is None || s.final_at(t) == Some(WEIGHT_ONE)) by {
            assert(s.final_at(t) == c.final_at(t));
            assert(c.final_at(t) is None || c.final_at(t) == Some(WEIGHT_ONE));
        }
        assert forall|t: usize| (t as int) < s.n() implies #[trigger] s.final_at(t) != Some(WEIGHT_ZERO) by {
            assert(s.final_at(t) is None || s.final_at(t) == Some(WEIGHT_ONE));
        }
        lemma_connected_live(&s);
        lemma_sorted_pre_keys(&s);
        assert(lang_together(&s, p));
        assert(crate::language::bisim_partition(&s, p));
        assert(s.accessible(0));
        lemma_unique_same(&q, &f);
        m.lemma_n_bound();
        crate::connect::lemma_kept_before_le(m, m.n());
        assert forall|a: usize, b: usize| (a as int) < f.n() && (b as int) < f.n() && a != b implies !#[trigger] same_lang(&f, a, b) by {
            crate::connect::lemma_kept_before_onto(m, m.n(), a as int);
            crate::connect::lemma_kept_before_onto(m, m.n(), b as int);
            let xa = choose|xa: usize| (xa as int) < m.n() && kept(m, xa) && kept_before(m, xa as int) == a;
            let xb = choose|xb: usize| (xb as int) < m.n() && kept(m, xb) && kept_before(m, xb as int) == b;
            lemma_merged_accessible_reps(&s, p, &m, xa);
            lemma_merged_accessible_reps(&s, p, &m, xb);
            assert(xa != xb);
            assert(p.class_at(xa) != p.class_at(xb));
            assert(!same_lang(&s, xa, xb));
            let w = choose|w: Seq<usize>| accepts(&s, xa, w) != accepts(&s, xb, w);
            lemma_merge_accepts(&s, p, &m, xa, w);
            lemma_merge_accepts(&s, p, &m, xb, w);
            lemma_connect_accepts(m, q, xa, w);
            lemma_connect_accepts(m, q, xb, w);
            assert(kept_before(m, xa as int) as usize == a);
            assert(kept_before(m, xb as int) as usize == b);
            lemma_same_transitions_accepts(&q, &f, a, w);
            lemma_same_transitions_accepts(&q, &f, b, w);
            assert(accepts(&f, a, w) != accepts(&f, b, w));
        }
    }
}

/// Merging the classes of a partition that keeps equivalent transitions
/// together leaves the transitions of every state of a deterministic
/// acceptor with weights `One` label-functional.
pub proof fn lemma_merged_functional(s: &VectorFst, p: Partition, m: &VectorFst)
    requires
        s.wf(),
        s.is_i_deterministic(),
        s.is_acceptor(),
        s.has_unit_weights(),
        p.wf(),
        p.nonempty(),
        p.len() == s.n(),
        crate::language::bisim_partition(s, p),
        merged(s, p, m),
    ensures
        forall|x: usize| (x as int) < m.n() ==> label_functional(#[trigger] m.trs_at(x)),
{
    assert forall|x: usize| (x as int) < m.n() implies label_functional(#[trigger] m.trs_at(x)) by {
        let t = m.trs_at(x);
        crate::merge::lemma_member(p, x);
        let c = p.class_at(x);
        if x == rep_of(p, c) {
            let ms = members_of(p, c);
            assert(t == crate::merge::merged_trs(s, p, ms));
            assert forall|i: int, j: int| #![trigger t[i], t[j]] 0 <= i < t.len() && 0 <= j < t.len() && t[i].ilabel == t[j].ilabel implies t[i]
                == t[j] by {
                lemma_merged_trs_from(s, p, ms, i);
                lemma_merged_trs_from(s, p, ms, j);
                let (k1, j1) = choose|k: int, jj: int|
                    0 <= k < ms.len() && 0 <= jj < s.trs_at(ms[k]).len() && crate::merge::merged_trs(s, p, ms)[i]
                        == crate::merge::remap_tr(p, #[trigger] s.trs_at(ms[k])[jj]);
                let (k2, j2) = choose|k: int, jj: int|
                    0 <= k < ms.len() && 0 <= jj < s.trs_at(ms[k]).len() && crate::merge::merged_trs(s, p, ms)[j]
                        == crate::merge::remap_tr(p, #[trigger] s.trs_at(ms[k])[jj]);
                let z1 = ms[k1];
                let z2 = ms[k2];
                assert(ms.contains(z1));
                assert(ms.contains(z2));
                crate::merge::lemma_member_of(p, c, z1);
                crate::merge::lemma_member_of(p, c, z2);
                let e1 = s.trs_at(z1)[j1];
                let e2 = s.trs_at(z2)[j2];
                let l = e1.ilabel;
                assert(e2.ilabel == l);
                assert(p.class_at(z2) == p.class_at(z1));
                assert(crate::language::has_tr_into(s, p, z2, l, p.class_at(e1.nextstate)));
                reveal(crate::language::has_tr_into);
                let i2 = choose|i2: int|
                    0 <= i2 < s.trs_at(z2).len() && (#[trigger] s.trs_at(z2)[i2]).ilabel == l && p.class_at(
                        s.trs_at(z2)[i2].nextstate,
                    ) == p.class_at(e1.nextstate);
                if i2 < j2 {
                    assert(s.trs_at(z2)[i2].ilabel != s.trs_at(z2)[j2].ilabel);
                } else if j2 < i2 {
                    assert(s.trs_at(z2)[j2].ilabel != s.trs_at(z2)[i2].ilabel);
                }
                assert(e1.olabel == e1.ilabel);
                assert(e2.olabel == e2.ilabel);
                assert(e1.weight == crate::fst::WEIGHT_ONE);
                assert(e2.weight == crate::fst::WEIGHT_ONE);
            }
        } else {
            assert(t == s.trs_at(x));
            assert forall|i: int, j: int| #![trigger t[i], t[j]] 0 <= i < t.len() && 0 <= j < t.len() && t[i].ilabel == t[j].ilabel implies t[i]
                == t[j] by {
                if i < j {
                    assert(s.trs_at(x)[i].ilabel != s.trs_at(x)[j].ilabel);
                } else if j < i {
                    assert(s.trs_at(x)[j].ilabel != s.trs_at(x)[i].ilabel);
                }
            }
        }
    }
}

/// Minimizing a deterministic acceptor whose transition weights are `One`
/// gives a deterministic acceptor.
pub proof fn lemma_minimized_deterministic(f0: VectorFst, acyclic_path: bool, f: VectorFst)
    requires
        f0.wf(),
        f0.is_i_deterministic(),
        f0.is_acceptor(),
        f0.has_unit_weights(),
        acceptor_minimized(f0, acyclic_path, f),
    ensures
        f.is_i_deterministic(),
{
    let c = choose|c: VectorFst|
        #[trigger] connect_result(f0, c) && c.wf() && (c.n() == 0 ==> f == c) && (c.n() > 0 ==> minimized_from(&c, acyclic_path, &f));
    if c.n() > 0 {
        crate::connect::lemma_connect_det(f0, c);
        crate::connect::lemma_connect_plain(f0, c);
        let (s, p, m, q) = choose|s: VectorFst, p: Partition, m: VectorFst, q: VectorFst|
            crate::minimize::minimized_via(&c, acyclic_path, &f, s, p, m, q);
        lemma_sorted_of_props(&c, &s);
        if acyclic_path {
            crate::language::lemma_sig_congruence_bisim(&s, p);
        }
        lemma_merged_functional(&s, p, &m);
        m.lemma_n_bound();
        crate::connect::lemma_kept_before_le(m, m.n());
        assert forall|y: usize, i: int, j: int|
            #![trigger f.trs_at(y)[i], f.trs_at(y)[j]]
            (y as int) < f.n() && 0 <= i < j < f.trs_at(y).len() implies f.trs_at(y)[i].ilabel != f.trs_at(y)[j].ilabel by {
            crate::connect::lemma_kept_before_onto(m, m.n(), y as int);
            let x = choose|x: usize| (x as int) < m.n() && kept(m, x) && kept_before(m, x as int) == y;
            assert(q.trs_of(kept_before(m, x as int) as int) == crate::connect::kept_trs(m, m.trs_of(x as int)));
            assert(label_functional(m.trs_at(x)));
            crate::connect::lemma_kept_trs_functional(m, m.trs_at(x));
            assert(q.trs_at(y) == crate::connect::kept_trs(m, m.trs_at(x)));
            crate::tr_ops::lemma_unique_distinct(q.trs_at(y));
            assert(f.trs_at(y) == crate::tr_ops::dedup_trs(sort_trs(q.trs_at(y), true)));
        }
    }
}

/// States in a common class of a partition whose classes are alike accept
/// the same words.
pub proof fn lemma_bisim_accepts(f: &VectorFst, p: Partition, x: usize, y: usize, w: Seq<usize>)
    requires
        f.wf(),
        p.wf(),
        p.len() == f.n(),
        crate::language::bisim_partition(f, p),
        (x as int) < f.n(),
        (y as int) < f.n(),
        p.class_at(x) == p.class_at(y),
    ensures
        accepts(f, x, w) == accepts(f, y, w),
    decreases w.len(),
{
    if w.len() > 0 {
        if accepts(f, x, w) {
            lemma_bisim_accepts_step(f, p, x, y, w);
        }
        if accepts(f, y, w) {
            lemma_bisim_accepts_step(f, p, y, x, w);
        }
    }
}

/// One direction of `lemma_bisim_accepts` on a nonempty word.
proof fn lemma_bisim_accepts_step(f: &VectorFst, p: Partition, x: usize, y: usize, w: Seq<usize>)
    requires
        f.wf(),
        p.wf(),
        p.len() == f.n(),
        crate::language::bisim_partition(f, p),
        (x as int) < f.n(),
        (y as int) < f.n(),
        p.class_at(x) == p.class_at(y),
        w.len() > 0,
        accepts(f, x, w),
    ensures
        accepts(f, y, w),
    decreases w.len(), 0int,
{
    let i = choose|i: int|
        0 <= i < f.trs_at(x).len() && (#[trigger] f.trs_at(x)[i]).ilabel == w[0] && accepts(f, f.trs_at(x)[i].nextstate, w.drop_first());
    let t = f.trs_at(x)[i].nextstate;
    assert(crate::language::has_tr_into(f, p, y, w[0], p.class_at(t)));
    reveal(crate::language::has_tr_into);
    let i2 = choose|i2: int|
        0 <= i2 < f.trs_at(y).len() && (#[trigger] f.trs_at(y)[i2]).ilabel == w[0] && p.class_at(f.trs_at(y)[i2].nextstate)
            == p.class_at(t);
    let t2 = f.trs_at(y)[i2].nextstate;
    lemma_bisim_accepts(f, p, t, t2, w.drop_first());
}

/// On a live, deterministic, acyclic fst whose transitions are sorted by
/// input label and whose final weights are `One` or absent, the partition
/// that splits the states exactly by signature groups exactly the states
/// that accept the same words.
pub proof fn lemma_acyclic_classes_are_languages(f: &VectorFst, p: Partition, x: usize, y: usize)
    requires
        f.wf(),
        f.is_i_deterministic(),
        f.acyclic(),
        live(f),
        ilabel_sorted(f),
        forall|t: usize| (t as int) < f.n() ==> (#[trigger] f.final_at(t) is None || f.final_at(t) == Some(WEIGHT_ONE)),
        p.wf(),
        p.len() == f.n(),
        sig_congruence(f, p),
        (x as int) < f.n(),
        (y as int) < f.n(),
    ensures
        p.class_at(x) == p.class_at(y) <==> same_lang(f, x, y),
{
    if same_lang(f, x, y) {
        let r = choose|r: spec_fn(usize) -> nat| #[trigger] f.is_ranking(r);
        lemma_nerode(f, p, r, x, y);
    }
    if p.class_at(x) == p.class_at(y) {
        crate::language::lemma_sig_congruence_bisim(f, p);
        assert forall|w: Seq<usize>| #![trigger accepts(f, x, w)] #![trigger accepts(f, y, w)] accepts(f, x, w) == accepts(f, y, w) by {
            lemma_bisim_accepts(f, p, x, y, w);
        }
    }
}

} // verus!
