use vstd::prelude::*;

use crate::connect::connect_result;
use crate::connect::kept;
use crate::connect::kept_before;
use crate::connect::kept_trs;
use crate::fst::Tr;
use crate::language::accepts;
use crate::language::bisim_partition;
use crate::language::lemma_merge_accepts;
use crate::merge::members_of;
use crate::merge::merged;
use crate::merge::merged_trs;
use crate::merge::remap_tr;
use crate::merge::remap_trs;
use crate::merge::rep_of;
use crate::minimality::lemma_acyclic_minimal;
use crate::minimality::lemma_cyclic_minimal;
use crate::minimality::lemma_minimized_deterministic;
use crate::minimality::lemma_same_connected;
use crate::minimality::no_zero_final;
use crate::minimality::no_equivalent_states;
use crate::minimize::acceptor_minimized;
use crate::minimize::minimized_from;
use crate::tr_ops::same_transitions;
use crate::minimality::same_lang;
use crate::partition::Partition;
use crate::fst::VectorFst;
use crate::tr_ops::dedup_trs;
use crate::tr_ops::key_sorted;
use crate::tr_ops::sort_trs;
use crate::tr_ops::tr_key_lt;

verus! {

/// `f` and `g` have the same states, final weights, transitions and start.
pub open spec fn same_fst(f: &VectorFst, g: &VectorFst) -> bool {
    &&& f.n() == g.n()
    &&& f.start == g.start
    &&& forall|x: usize| (x as int) < f.n() ==> #[trigger] g.final_at(x) == f.final_at(x)
    &&& forall|x: usize| (x as int) < f.n() ==> #[trigger] g.trs_at(x) == f.trs_at(x)
}

/// Sorting an already sorted sequence leaves it as it is.
pub proof fn lemma_sort_id(t: Seq<Tr>, full: bool)
    requires
        key_sorted(t, full),
    ensures
        sort_trs(t, full) == t,
    decreases t.len(),
{
    if t.len() > 0 {
        let u = t.drop_last();
        assert(key_sorted(u, full)) by {
            assert forall|i: int, j: int| 0 <= i < j < u.len() implies !tr_key_lt(#[trigger] u[j], #[trigger] u[i], full) by {
                assert(u[i] == t[i] && u[j] == t[j]);
            }
        }
        lemma_sort_id(u, full);
        if u.len() > 0 {
            assert(u.last() == t[t.len() - 2]);
            assert(t.last() == t[t.len() - 1]);
        }
        assert(u.push(t.last()) =~= t);
    }
}

/// Removing repeats from a sequence without two equal neighbours leaves it
/// as it is.
pub proof fn lemma_dedup_id(t: Seq<Tr>)
    requires
        forall|i: int| 0 < i < t.len() ==> #[trigger] t[i] != t[i - 1],
    ensures
        dedup_trs(t) == t,
    decreases t.len(),
{
    if t.len() > 0 {
        let u = t.drop_last();
        assert forall|i: int| 0 < i < u.len() implies #[trigger] u[i] != u[i - 1] by {
            assert(u[i] == t[i] && u[i - 1] == t[i - 1]);
        }
        lemma_dedup_id(u);
        if t.len() > 1 {
            assert(t[t.len() - 1] != t[t.len() - 2]);
        }
        assert(u.push(t.last()) =~= t);
    }
}

/// A sequence sorted by the full key is sorted by input label.
pub proof fn lemma_full_sorted_ilabel(t: Seq<Tr>)
    requires
        key_sorted(t, true),
    ensures
        key_sorted(t, false),
{
    assert forall|i: int, j: int| 0 <= i < j < t.len() implies !tr_key_lt(#[trigger] t[j], #[trigger] t[i], false) by {
        assert(!tr_key_lt(t[j], t[i], true));
    }
}

/// In a connected fst every state keeps its number.
pub proof fn lemma_kept_before_id(f: VectorFst, m: int)
    requires
        f.is_connected(),
        0 <= m <= f.n(),
    ensures
        kept_before(f, m) == m,
    decreases m,
{
    if m > 0 {
        lemma_kept_before_id(f, m - 1);
        f.lemma_n_bound();
        let y = (m - 1) as usize;
        assert(f.is_connected());
        assert((y as int) < f.n());
        assert(f.accessible(y));
        assert(kept(f, (m - 1) as usize));
    }
}

/// In a connected fst `kept_trs` changes no transition.
pub proof fn lemma_kept_trs_id(f: VectorFst, trs: Seq<Tr>)
    requires
        f.is_connected(),
        forall|i: int| 0 <= i < trs.len() ==> ((#[trigger] trs[i]).nextstate as int) < f.n(),
    ensures
        kept_trs(f, trs) == trs,
    decreases trs.len(),
{
    if trs.len() > 0 {
        let u = trs.drop_last();
        assert forall|i: int| 0 <= i < u.len() implies ((#[trigger] u[i]).nextstate as int) < f.n() by {
            assert(u[i] == trs[i]);
        }
        lemma_kept_trs_id(f, u);
        let t = trs.last();
        assert(trs[trs.len() - 1] == t);
        assert(f.accessible(t.nextstate));
        lemma_kept_before_id(f, t.nextstate as int);
        assert(u.push(t) =~= trs);
    }
}

/// Connecting a connected fst changes nothing.
pub proof fn lemma_connect_id(f: VectorFst, g: VectorFst)
    requires
        f.wf(),
        f.is_connected(),
        connect_result(f, g),
    ensures
        same_fst(&f, &g),
{
    lemma_kept_before_id(f, f.n());
    assert forall|x: usize| #![trigger g.final_at(x)] #![trigger g.trs_at(x)] (x as int) < f.n() implies g.final_at(x) == f.final_at(x) && g.trs_at(x) == f.trs_at(x) by {
        assert(f.accessible(x));
        assert(kept(f, x));
        lemma_kept_before_id(f, x as int);
        assert(g.trs_of(kept_before(f, x as int) as int) == kept_trs(f, f.trs_of(x as int)));
        lemma_kept_trs_id(f, f.trs_at(x));
    }
    match f.start {
        Some(st) => {
            assert(f.accessible(st));
            assert(kept(f, st));
            lemma_kept_before_id(f, st as int);
            assert(g.start == Some(st));
        },
        None => {},
    }

}

/// Every class of `p` holds at most one of the first `n` states.
pub open spec fn singleton_classes(p: Partition, n: int) -> bool {
    forall|x: usize, y: usize|
        #![trigger p.class_at(x), p.class_at(y)]
        (x as int) < n && (y as int) < n && p.class_at(x) == p.class_at(y) ==> x == y
}

/// In a partition of singleton classes, a state is the only member of its
/// class and its own representative.
pub proof fn lemma_singleton_class(p: Partition, x: usize)
    requires
        p.wf(),
        singleton_classes(p, p.len() as int),
        (x as int) < p.len(),
    ensures
        members_of(p, p.class_at(x)) == seq![x],
        rep_of(p, p.class_at(x)) == x,
{
    let c = p.class_at(x);
    crate::merge::lemma_member(p, x);
    p.lemma_wf();
    let ms = members_of(p, c);
    assert forall|i: int| 0 <= i < ms.len() implies #[trigger] ms[i] == x by {
        let y = ms[i];
        assert(ms.contains(y));
        crate::merge::lemma_member_of(p, c, y);
    }
    assert(ms.no_duplicates());
    assert(ms.contains(x));
    if ms.len() > 1 {
        assert(ms[0] == x && ms[1] == x);
    }
    assert(ms =~= seq![x]);
}

/// Merging a partition whose classes are single states changes nothing.
pub proof fn lemma_merge_singletons(s: &VectorFst, p: Partition, m: &VectorFst)
    requires
        s.wf(),
        s.start is Some,
        p.wf(),
        p.len() == s.n(),
        singleton_classes(p, s.n()),
        merged(s, p, m),
    ensures
        same_fst(s, m),
{
    assert forall|x: usize| #![trigger m.final_at(x)] #![trigger m.trs_at(x)] (x as int) < s.n() implies m.final_at(x) == s.final_at(x)
        && m.trs_at(x) == s.trs_at(x) by {
        lemma_singleton_class(p, x);
        let t = s.trs_at(x);
        let ms = members_of(p, p.class_at(x));
        assert(ms.drop_last() =~= Seq::<usize>::empty());
        assert(merged_trs(s, p, ms) == merged_trs(s, p, ms.drop_last()) + remap_trs(p, s.trs_at(ms.last())));
        assert(merged_trs(s, p, ms) =~= remap_trs(p, t));
        assert forall|i: int| 0 <= i < t.len() implies #[trigger] remap_trs(p, t)[i] == t[i] by {
            assert((t[i].nextstate as int) < s.n());
            lemma_singleton_class(p, t[i].nextstate);
            assert(remap_tr(p, t[i]) == t[i]);
        }
        assert(remap_trs(p, t) =~= t);
    }
    lemma_singleton_class(p, s.start.unwrap());
}

/// Without two states that accept the same words, a partition that keeps
/// transitions alike has single states as classes, and merging it changes
/// nothing.
pub proof fn lemma_merge_id(s: &VectorFst, p: Partition, m: &VectorFst)
    requires
        s.wf(),
        s.start is Some,
        p.wf(),
        p.nonempty(),
        p.len() == s.n(),
        bisim_partition(s, p),
        merged(s, p, m),
        no_equivalent_states(s),
    ensures
        same_fst(s, m),
{
    assert forall|x: usize, y: usize| (x as int) < s.n() && (y as int) < s.n() && #[trigger] p.class_at(x) == #[trigger] p.class_at(y)
        implies x == y by {
        assert forall|w: Seq<usize>| #![trigger accepts(s, x, w)] #![trigger accepts(s, y, w)] accepts(s, x, w) == accepts(s, y, w) by {
            lemma_merge_accepts(s, p, m, x, w);
            lemma_merge_accepts(s, p, m, y, w);
        }
        assert(same_lang(s, x, y));
    }
    lemma_merge_singletons(s, p, m);
}

/// The transitions of every state are sorted by the full key and hold no
/// transition equal to the one before it: the form `tr_unique` leaves.
pub open spec fn unique_form(f: &VectorFst) -> bool {
    forall|x: usize|
        (x as int) < f.n() ==> key_sorted(#[trigger] f.trs_at(x), true) && forall|i: int|
            0 < i < f.trs_at(x).len() ==> #[trigger] f.trs_at(x)[i] != f.trs_at(x)[i - 1]
}

/// Fsts that are the same have the same transitions.
pub proof fn lemma_same_fst_transitions(f: &VectorFst, g: &VectorFst)
    requires
        same_fst(f, g),
    ensures
        same_transitions(f, g),
        same_transitions(g, f),
{
    assert forall|s: usize, x: Tr| (s as int) < f.n() implies (#[trigger] g.trs_at(s).contains(x) <==> f.trs_at(s).contains(x)) by {
        assert(g.trs_at(s) == f.trs_at(s));
    }
    assert forall|s: usize, x: Tr| (s as int) < g.n() implies (#[trigger] f.trs_at(s).contains(x) <==> g.trs_at(s).contains(x)) by {
        assert(g.trs_at(s) == f.trs_at(s));
    }
    assert forall|s: usize| (s as int) < g.n() implies #[trigger] f.final_at(s) == g.final_at(s) by {
        assert(g.final_at(s) == f.final_at(s));
    }
}

/// Minimizing a connected deterministic acceptor without two states that
/// accept the same words, whose transitions are in the form `tr_unique`
/// leaves, gives it back unchanged.
pub proof fn lemma_minimized_fixed(f1: VectorFst, acyclic_path: bool, f2: VectorFst)
    requires
        f1.wf(),
        f1.is_connected(),
        f1.is_i_deterministic(),
        no_equivalent_states(&f1),
        unique_form(&f1),
        acceptor_minimized(f1, acyclic_path, f2),
    ensures
        same_fst(&f1, &f2),
{
    let c = choose|c: VectorFst|
        #[trigger] connect_result(f1, c) && c.wf() && (c.n() == 0 ==> f2 == c) && (c.n() > 0 ==> minimized_from(&c, acyclic_path, &f2));
    lemma_connect_id(f1, c);
    if c.n() > 0 {
        let (s, p, m, q) = choose|s: VectorFst, p: Partition, m: VectorFst, q: VectorFst|
            crate::minimize::minimized_via(&c, acyclic_path, &f2, s, p, m, q);
        assert(same_fst(&f1, &s)) by {
            assert forall|x: usize| #![trigger s.trs_at(x)] (x as int) < f1.n() implies s.trs_at(x) == f1.trs_at(x) by {
                assert(key_sorted(f1.trs_at(x), true));
                lemma_full_sorted_ilabel(f1.trs_at(x));
                lemma_sort_id(f1.trs_at(x), false);
                assert(c.trs_at(x) == f1.trs_at(x));
            }
            assert forall|x: usize| #![trigger s.final_at(x)] (x as int) < f1.n() implies s.final_at(x) == f1.final_at(x) by {
                assert(c.final_at(x) == f1.final_at(x));
            }
        }
        lemma_same_fst_transitions(&f1, &s);
        crate::tr_ops::lemma_same_transitions(&f1, &s);
        if acyclic_path {
            crate::language::lemma_sig_congruence_bisim(&s, p);
        } else {
            assert(s.is_i_deterministic()) by {
                assert forall|t: usize, i: int, j: int|
                    #![trigger s.trs_at(t)[i], s.trs_at(t)[j]]
                    (t as int) < s.n() && 0 <= i < j < s.trs_at(t).len() implies s.trs_at(t)[i].ilabel != s.trs_at(t)[j].ilabel by {
                    assert(s.trs_at(t) == f1.trs_at(t));
                }
            }
        }
        assert(no_equivalent_states(&s)) by {
            assert forall|a: usize, b: usize| (a as int) < s.n() && (b as int) < s.n() && a != b implies !#[trigger] same_lang(&s, a, b) by {
                assert(!same_lang(&f1, a, b));
                let w = choose|w: Seq<usize>| accepts(&f1, a, w) != accepts(&f1, b, w);
                crate::language::lemma_same_transitions_accepts(&f1, &s, a, w);
                crate::language::lemma_same_transitions_accepts(&f1, &s, b, w);
            }
        }
        assert(f1.accessible(0));
        assert(s.start is Some);
        lemma_merge_id(&s, p, &m);
        assert(same_fst(&f1, &m)) by {
            assert forall|x: usize| #![trigger m.trs_at(x)] (x as int) < f1.n() implies m.trs_at(x) == f1.trs_at(x) by {
                assert(s.trs_at(x) == f1.trs_at(x));
            }
            assert forall|x: usize| #![trigger m.final_at(x)] (x as int) < f1.n() implies m.final_at(x) == f1.final_at(x) by {
                assert(s.final_at(x) == f1.final_at(x));
            }
        }
        lemma_same_fst_transitions(&f1, &m);
        lemma_same_connected(&f1, &m);
        lemma_connect_id(m, q);
        assert forall|x: usize| #![trigger f2.trs_at(x)] (x as int) < f1.n() implies f2.trs_at(x) == f1.trs_at(x) by {
            assert(q.trs_at(x) == m.trs_at(x));
            assert(m.trs_at(x) == f1.trs_at(x));
            lemma_sort_id(f1.trs_at(x), true);
            lemma_dedup_id(f1.trs_at(x));
        }
        assert forall|x: usize| #![trigger f2.final_at(x)] (x as int) < f1.n() implies f2.final_at(x) == f1.final_at(x) by {
            assert(q.final_at(x) == m.final_at(x));
            assert(m.final_at(x) == f1.final_at(x));
        }
    }
}

/// A minimization result is a well-formed connected fst whose transitions
/// are in the form `tr_unique` leaves.
pub proof fn lemma_minimized_shape(f0: VectorFst, acyclic_path: bool, f: VectorFst)
    requires
        f0.wf(),
        acceptor_minimized(f0, acyclic_path, f),
    ensures
        f.wf(),
        f.is_connected(),
        unique_form(&f),
{
    let c = choose|c: VectorFst|
        #[trigger] connect_result(f0, c) && c.wf() && (c.n() == 0 ==> f == c) && (c.n() > 0 ==> minimized_from(&c, acyclic_path, &f));
    if c.n() > 0 {
        let (s, p, m, q) = choose|s: VectorFst, p: Partition, m: VectorFst, q: VectorFst|
            crate::minimize::minimized_via(&c, acyclic_path, &f, s, p, m, q);
        crate::connect::lemma_connect_connected(m, q);
        crate::minimize::lemma_unique_connected(&q, &f);
        crate::language::lemma_unique_same(&q, &f);
        crate::tr_ops::lemma_same_transitions(&q, &f);
        assert forall|x: usize| (x as int) < f.n() implies key_sorted(#[trigger] f.trs_at(x), true) && forall|i: int|
            0 < i < f.trs_at(x).len() ==> #[trigger] f.trs_at(x)[i] != f.trs_at(x)[i - 1] by {
            crate::tr_ops::lemma_sort_sorted(q.trs_at(x), true);
            crate::tr_ops::lemma_dedup_sorted(sort_trs(q.trs_at(x), true), true);
            crate::tr_ops::lemma_dedup_no_repeat(sort_trs(q.trs_at(x), true));
        }
    }
}

/// Minimizing the result of a minimization gives it back unchanged: for a
/// deterministic unweighted acceptor with transition weights `One` and no
/// accessible final weight `Zero`.
pub proof fn lemma_minimize_idempotent(f0: VectorFst, ap0: bool, f1: VectorFst, ap1: bool, f2: VectorFst)
    requires
        f0.wf(),
        f0.is_acceptor(),
        f0.is_unweighted(),
        f0.has_unit_weights(),
        f0.is_i_deterministic(),
        no_zero_final(&f0),
        ap0 ==> f0.acyclic(),
        acceptor_minimized(f0, ap0, f1),
        acceptor_minimized(f1, ap1, f2),
    ensures
        same_fst(&f1, &f2),
{
    lemma_minimized_shape(f0, ap0, f1);
    lemma_minimized_deterministic(f0, ap0, f1);
    if ap0 {
        lemma_acyclic_minimal(f0, f1);
    } else {
        lemma_cyclic_minimal(f0, f1);
    }
    lemma_minimized_fixed(f1, ap1, f2);
}

} // verus!
