use vstd::prelude::*;

use crate::connect::lemma_succ_edge;
use crate::fst::VectorFst;
use crate::graph::edge;
use crate::graph::is_walk;
use crate::language::accepts;
use crate::language::accepts_fst;
use crate::minimality::accepts_some;
use crate::minimality::lemma_det_step;
use crate::minimality::live;
use crate::minimality::no_equivalent_states;
use crate::minimality::same_lang;
use crate::minimality::no_zero_final;
use crate::minimize::acceptor_minimized;
use crate::minimize::minimized_from;
use crate::connect::connect_result;
use crate::connect::kept;
use crate::connect::kept_before;
use crate::fst::WEIGHT_ZERO;
use crate::partition::Partition;

verus! {

/// The state that the word `u` leads to from `s`, following at each step a
/// transition with the next label (in a deterministic fst, the only one).
pub open spec fn run(f: &VectorFst, s: usize, u: Seq<usize>) -> Option<usize>
    decreases u.len(),
{
    if u.len() == 0 {
        Some(s)
    } else if exists|i: int| 0 <= i < f.trs_at(s).len() && (#[trigger] f.trs_at(s)[i]).ilabel == u[0] {
        let i = choose|i: int| 0 <= i < f.trs_at(s).len() && (#[trigger] f.trs_at(s)[i]).ilabel == u[0];
        run(f, f.trs_at(s)[i].nextstate, u.drop_first())
    } else {
        None
    }
}

/// In a deterministic fst, `u` followed by `w` is accepted from `s`
/// exactly when `u` leads from `s` to a state that accepts `w`.
pub proof fn lemma_run_accepts(f: &VectorFst, s: usize, u: Seq<usize>, w: Seq<usize>)
    requires
        f.wf(),
        f.is_i_deterministic(),
        (s as int) < f.n(),
    ensures
        accepts(f, s, u + w) == (run(f, s, u) matches Some(x) && accepts(f, x, w)),
    decreases u.len(),
{
    if u.len() == 0 {
        assert(u + w =~= w);
    } else {
        let l = u[0];
        let rest = u.drop_first() + w;
        assert(u + w =~= seq![l] + rest);
        if exists|i: int| 0 <= i < f.trs_at(s).len() && (#[trigger] f.trs_at(s)[i]).ilabel == l {
            let i = choose|i: int| 0 <= i < f.trs_at(s).len() && (#[trigger] f.trs_at(s)[i]).ilabel == l;
            lemma_det_step(f, s, i, rest);
            lemma_run_accepts(f, f.trs_at(s)[i].nextstate, u.drop_first(), w);
        } else {
            let v = seq![l] + rest;
            assert(v[0] == l);
            if accepts(f, s, v) {
                let j = choose|j: int| 0 <= j < f.trs_at(s).len() && (#[trigger] f.trs_at(s)[j]).ilabel == v[0] && accepts(
                    f,
                    f.trs_at(s)[j].nextstate,
                    v.drop_first(),
                );
            }
        }
    }
}

/// In a deterministic fst, the last state of a walk from `s` is where some
/// word leads from `s`.
pub proof fn lemma_walk_run(f: &VectorFst, p: Seq<usize>)
    requires
        f.wf(),
        f.is_i_deterministic(),
        is_walk(f.succ_graph(), p),
    ensures
        exists|u: Seq<usize>| #[trigger] run(f, p[0], u) == Some(p.last()),
    decreases p.len(),
{
    let g = f.succ_graph();
    if p.len() == 1 {
        assert(run(f, p[0], Seq::<usize>::empty()) == Some(p.last()));
    } else {
        let q = p.drop_first();
        assert(is_walk(g, q)) by {
            assert forall|i: int| 0 <= i < q.len() - 1 implies #[trigger] edge(g, q[i], q[i + 1]) by {
                assert(edge(g, p[i + 1], p[i + 1 + 1]));
            }
        }
        lemma_walk_run(f, q);
        let u = choose|u: Seq<usize>| #[trigger] run(f, q[0], u) == Some(q.last());
        assert(edge(g, p[0], p[1]));
        lemma_succ_edge(*f, p[0], p[1]);
        let j = choose|j: int| 0 <= j < f.trs_of(p[0] as int).len() && #[trigger] f.trs_of(p[0] as int)[j].nextstate == p[1];
        let l = f.trs_at(p[0])[j].ilabel;
        let v = seq![l] + u;
        assert(v.drop_first() =~= u);
        assert(v[0] == l);
        let i = choose|i: int| 0 <= i < f.trs_at(p[0]).len() && (#[trigger] f.trs_at(p[0])[i]).ilabel == v[0];
        if i < j {
            assert(f.trs_at(p[0])[i].ilabel != f.trs_at(p[0])[j].ilabel);
        } else if j < i {
            assert(f.trs_at(p[0])[j].ilabel != f.trs_at(p[0])[i].ilabel);
        }
        assert(q.last() == p.last());
        assert(run(f, p[0], v) == Some(p.last()));
    }
}

/// A run from a state of a well-formed fst ends in a state of the fst.
pub proof fn lemma_run_bound(f: &VectorFst, s: usize, u: Seq<usize>)
    requires
        f.wf(),
        (s as int) < f.n(),
    ensures
        run(f, s, u) matches Some(x) ==> (x as int) < f.n(),
    decreases u.len(),
{
    if u.len() > 0 {
        if exists|i: int| 0 <= i < f.trs_at(s).len() && (#[trigger] f.trs_at(s)[i]).ilabel == u[0] {
            let i = choose|i: int| 0 <= i < f.trs_at(s).len() && (#[trigger] f.trs_at(s)[i]).ilabel == u[0];
            lemma_run_bound(f, f.trs_at(s)[i].nextstate, u.drop_first());
        }
    }
}

/// A word leading from the start of `f1` to state `x`.
pub open spec fn word_to(f1: &VectorFst, x: int) -> Seq<usize> {
    choose|u: Seq<usize>| run(f1, f1.start.unwrap(), u) == Some(x as usize)
}

/// The state of `f2` that the word leading to `x` in `f1` leads to, or -1.
pub open spec fn matching_state(f1: &VectorFst, f2: &VectorFst, x: int) -> int {
    match run(f2, f2.start.unwrap(), word_to(f1, x)) {
        Some(y) => y as int,
        None => -1,
    }
}

/// A connected, live, deterministic fst without two equivalent states has
/// no more states than any deterministic fst that accepts the same words.
pub proof fn lemma_minimal_size_le(f1: &VectorFst, f2: &VectorFst)
    requires
        f1.wf(),
        f1.is_i_deterministic(),
        f1.is_connected(),
        live(f1),
        no_equivalent_states(f1),
        f2.wf(),
        f2.is_i_deterministic(),
        forall|w: Seq<usize>| #[trigger] accepts_fst(f1, w) == accepts_fst(f2, w),
    ensures
        f1.n() <= f2.n(),
{
    if f1.n() > 0 {
        let g1 = f1.succ_graph();
        assert(f1.accessible(0));
        let s1 = f1.start.unwrap();
        assert(accepts_some(f1, s1));
        let w0 = choose|w: Seq<usize>| #[trigger] accepts(f1, s1, w);
        assert(accepts_fst(f1, w0));
        assert(accepts_fst(f2, w0));
        let s2 = f2.start.unwrap();
        let phi = |x: int| matching_state(f1, f2, x);
        assert forall|x: int| 0 <= x < f1.n() implies 0 <= #[trigger] phi(x) < f2.n() && forall|w: Seq<usize>|
            #![trigger accepts(f1, x as usize, w)]
            accepts(f1, x as usize, w) == accepts(f2, phi(x) as usize, w) by {
            let xu = x as usize;
            assert(f1.accessible(xu));
            let p = choose|p: Seq<usize>| #[trigger] is_walk(g1, p) && p[0] == s1 && p.last() == xu;
            lemma_walk_run(f1, p);
            let u = word_to(f1, x);
            assert(run(f1, s1, u) == Some(xu));
            assert forall|w: Seq<usize>| #![trigger accepts(f1, xu, w)] accepts(f1, s1, u + w) == accepts(f1, xu, w) && accepts(
                f2,
                s2,
                u + w,
            ) == (run(f2, s2, u) matches Some(y) && accepts(f2, y, w)) && accepts(f1, s1, u + w) == accepts(f2, s2, u + w) by {
                lemma_run_accepts(f1, s1, u, w);
                lemma_run_accepts(f2, s2, u, w);
                assert(accepts_fst(f1, u + w) == accepts_fst(f2, u + w));
            }
            assert(accepts_some(f1, xu));
            let w1 = choose|w: Seq<usize>| #[trigger] accepts(f1, xu, w);
            assert(accepts(f1, xu, w1));
            assert(accepts(f2, s2, u + w1));
            assert(run(f2, s2, u) is Some);
            lemma_run_bound(f2, s2, u);
            let y = run(f2, s2, u).unwrap();
            assert(phi(x) == y as int);
            assert forall|w: Seq<usize>| #![trigger accepts(f1, xu, w)] accepts(f1, xu, w) == accepts(f2, phi(x) as usize, w) by {
                assert(accepts(f1, s1, u + w) == accepts(f1, xu, w));
            }
        }
        let dom = vstd::set_lib::set_int_range(0, f1.n());
        let img = dom.map(phi);
        assert(vstd::relations::injective_on(phi, dom)) by {
            assert forall|a: int, b: int| dom.contains(a) && dom.contains(b) && #[trigger] phi(a) == #[trigger] phi(b) implies a == b by {
                let au = a as usize;
                let bu = b as usize;
                assert forall|w: Seq<usize>| #![trigger accepts(f1, au, w)] #![trigger accepts(f1, bu, w)] accepts(f1, au, w) == accepts(f1, bu, w) by {
                    assert(accepts(f1, au, w) == accepts(f2, phi(a) as usize, w));
                    assert(accepts(f1, bu, w) == accepts(f2, phi(b) as usize, w));
                }
                assert(same_lang(f1, au, bu));
                f1.lemma_n_bound();
                assert(au == bu);
                assert(a == au as int && b == bu as int);
            }
        }
        vstd::set_lib::lemma_int_range(0, f1.n());
        vstd::set_lib::lemma_map_size(dom, img, phi);
        vstd::set_lib::lemma_int_range(0, f2.n());
        assert(img.subset_of(vstd::set_lib::set_int_range(0, f2.n()))) by {
            assert forall|y: int| img.contains(y) implies vstd::set_lib::set_int_range(0, f2.n()).contains(y) by {
                let x = choose|x: int| dom.contains(x) && phi(x) == y;
            }
        }
        vstd::set_lib::lemma_len_subset(img, vstd::set_lib::set_int_range(0, f2.n()));
    }
}

/// A minimization result has no final weight `Zero` when the input had
/// none on its accessible states.
pub proof fn lemma_minimized_finals(f0: VectorFst, acyclic_path: bool, f: VectorFst)
    requires
        f0.wf(),
        no_zero_final(&f0),
        acceptor_minimized(f0, acyclic_path, f),
    ensures
        forall|y: usize| (y as int) < f.n() ==> #[trigger] f.final_at(y) != Some(WEIGHT_ZERO),
{
    let c = choose|c: VectorFst|
        #[trigger] connect_result(f0, c) && c.wf() && (c.n() == 0 ==> f == c) && (c.n() > 0 ==> minimized_from(&c, acyclic_path, &f));
    f0.lemma_n_bound();
    crate::connect::lemma_kept_before_le(f0, f0.n());
    assert forall|t: usize| (t as int) < c.n() implies #[trigger] c.final_at(t) != Some(WEIGHT_ZERO) by {
        crate::connect::lemma_kept_before_onto(f0, f0.n(), t as int);
        let s0 = choose|s0: usize| (s0 as int) < f0.n() && kept(f0, s0) && kept_before(f0, s0 as int) == t;
        assert(c.trs_of(kept_before(f0, s0 as int) as int) == crate::connect::kept_trs(f0, f0.trs_of(s0 as int)));
        assert(f0.accessible(s0));
    }
    if c.n() > 0 {
        let (s, p, m, q) = choose|s: VectorFst, p: Partition, m: VectorFst, q: VectorFst|
            crate::minimize::minimized_via(&c, acyclic_path, &f, s, p, m, q);
        m.lemma_n_bound();
        crate::connect::lemma_kept_before_le(m, m.n());
        assert forall|y: usize| (y as int) < f.n() implies #[trigger] f.final_at(y) != Some(WEIGHT_ZERO) by {
            assert(f.final_at(y) == q.final_at(y));
            crate::connect::lemma_kept_before_onto(m, m.n(), y as int);
            let x = choose|x: usize| (x as int) < m.n() && kept(m, x) && kept_before(m, x as int) == y;
            assert(q.trs_of(kept_before(m, x as int) as int) == crate::connect::kept_trs(m, m.trs_of(x as int)));
            assert(q.final_at(y) == m.final_at(x));
            assert(m.final_at(x) == s.final_at(x));
            assert(s.final_at(x) == c.final_at(x));
        }
    }
}

/// Minimizing a deterministic unweighted acceptor with transition weights
/// `One` and no accessible final weight `Zero` gives as many states on the
/// acyclic path as on the cyclic one: the flag of `acceptor_minimize` only
/// selects the algorithm.
pub proof fn lemma_flag_same_size(f0: VectorFst, f1: VectorFst, f2: VectorFst)
    requires
        f0.wf(),
        f0.is_acceptor(),
        f0.is_unweighted(),
        f0.has_unit_weights(),
        f0.is_i_deterministic(),
        f0.acyclic(),
        no_zero_final(&f0),
        acceptor_minimized(f0, true, f1),
        acceptor_minimized(f0, false, f2),
    ensures
        f1.n() == f2.n(),
{
    crate::fixpoint::lemma_minimized_shape(f0, true, f1);
    crate::fixpoint::lemma_minimized_shape(f0, false, f2);
    crate::minimality::lemma_minimized_deterministic(f0, true, f1);
    crate::minimality::lemma_minimized_deterministic(f0, false, f2);
    crate::minimality::lemma_acyclic_minimal(f0, f1);
    crate::minimality::lemma_cyclic_minimal(f0, f2);
    lemma_minimized_finals(f0, true, f1);
    lemma_minimized_finals(f0, false, f2);
    crate::minimality::lemma_connected_live(&f1);
    crate::minimality::lemma_connected_live(&f2);
    assert forall|w: Seq<usize>| #[trigger] accepts_fst(&f1, w) == accepts_fst(&f2, w) by {
        crate::language::lemma_minimization_language(f0, true, f1, w);
        crate::language::lemma_minimization_language(f0, false, f2, w);
    }
    lemma_minimal_size_le(&f1, &f2);
    assert forall|w: Seq<usize>| #[trigger] accepts_fst(&f2, w) == accepts_fst(&f1, w) by {
        assert(accepts_fst(&f1, w) == accepts_fst(&f2, w));
    }
    lemma_minimal_size_le(&f2, &f1);
}

/// The result of minimizing a deterministic unweighted acceptor with
/// transition weights `One` and no accessible final weight `Zero` has no
/// more states than any deterministic fst that accepts the same words.
pub proof fn lemma_minimized_is_smallest(f0: VectorFst, acyclic_path: bool, f: VectorFst, g: VectorFst)
    requires
        f0.wf(),
        f0.is_acceptor(),
        f0.is_unweighted(),
        f0.has_unit_weights(),
        f0.is_i_deterministic(),
        acyclic_path ==> f0.acyclic(),
        no_zero_final(&f0),
        acceptor_minimized(f0, acyclic_path, f),
        g.wf(),
        g.is_i_deterministic(),
        forall|w: Seq<usize>| #[trigger] accepts_fst(&g, w) == accepts_fst(&f0, w),
    ensures
        f.n() <= g.n(),
{
    crate::fixpoint::lemma_minimized_shape(f0, acyclic_path, f);
    crate::minimality::lemma_minimized_deterministic(f0, acyclic_path, f);
    if acyclic_path {
        crate::minimality::lemma_acyclic_minimal(f0, f);
    } else {
        crate::minimality::lemma_cyclic_minimal(f0, f);
    }
    lemma_minimized_finals(f0, acyclic_path, f);
    crate::minimality::lemma_connected_live(&f);
    assert forall|w: Seq<usize>| #[trigger] accepts_fst(&f, w) == accepts_fst(&g, w) by {
        crate::language::lemma_minimization_language(f0, acyclic_path, f, w);
    }
    lemma_minimal_size_le(&f, &g);
}

} // verus!
