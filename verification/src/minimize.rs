use vstd::prelude::*;

use crate::acyclic::sig_congruence;
use crate::acyclic::AcyclicMinimizer;
use crate::connect::connect;
use crate::connect::connect_result;
use crate::connect::kept;
use crate::connect::kept_before;
use crate::connect::lemma_connect_acyclic;
use crate::connect::lemma_connect_connected;
use crate::connect::lemma_kept_before_le;
use crate::connect::lemma_kept_before_onto;
use crate::cyclic::cyclic_minimize;
use crate::cyclic::keeps_pre_keys;
use crate::fst::VectorFst;
use crate::language::accepts_fst;
use crate::language::bisim_partition;
use crate::language::lemma_minimization_language;
use crate::fst::WEIGHT_ZERO;
use crate::merge::merge_states;
use crate::merge::merged;
use crate::minimality::lang_together;
use crate::minimality::lemma_acyclic_minimal;
use crate::minimality::lemma_cyclic_minimal;
use crate::minimality::lemma_minimized_deterministic;
use crate::minimality::no_zero_final;
use crate::minimality::live;
use crate::minimality::pre_keys_respect_lang;
use crate::minimality::no_equivalent_states;
use crate::partition::Partition;
use crate::properties::check_acceptor;
use crate::properties::check_acyclic;
use crate::properties::check_i_deterministic;
use crate::properties::check_unweighted;
use crate::tr_ops::dedup_trs;
use crate::tr_ops::lemma_same_transitions;
use crate::tr_ops::lemma_sort_multiset;
use crate::tr_ops::same_transitions;
use crate::tr_ops::sort_trs;
use crate::tr_ops::tr_sort_ilabel;
use crate::tr_ops::tr_unique;

verus! {

/// Why a minimization was refused.
#[derive(Clone, Copy, Debug, PartialEq, Eq, Structural)]
pub enum MinimizeError {
    /// The fst has a state with two transitions on one input label and
    /// non-deterministic input was not allowed.
    NonDeterministic,
    /// `acceptor_minimize` was given an fst that is not an unweighted acceptor.
    NotUnweightedAcceptor,
    /// The fst is a weighted acceptor or a transducer: its minimization goes
    /// through weight pushing, encoding and weight factoring, which this
    /// library does not hold.
    Unsupported,
}

/// `s` is `c` with the transitions of every state sorted stably by input
/// label.
pub open spec fn ilabel_sorted_of(c: &VectorFst, s: &VectorFst) -> bool {
    &&& s.n() == c.n()
    &&& s.start == c.start
    &&& forall|x: usize| (x as int) < c.n() ==> #[trigger] s.final_at(x) == c.final_at(x)
    &&& forall|x: usize| (x as int) < c.n() ==> #[trigger] s.trs_at(x) == sort_trs(c.trs_at(x), false)
}

/// `f` is `q` with the transitions of every state sorted by input label,
/// output label and destination, and each transition equal to the one
/// before it removed.
pub open spec fn unique_of(q: &VectorFst, f: &VectorFst) -> bool {
    &&& f.n() == q.n()
    &&& f.start == q.start
    &&& forall|x: usize| (x as int) < q.n() ==> #[trigger] f.final_at(x) == q.final_at(x)
    &&& forall|x: usize| (x as int) < q.n() ==> #[trigger] f.trs_at(x) == dedup_trs(sort_trs(q.trs_at(x), true))
}

/// `f` is the minimization of the connected fst `c`: the transitions are
/// first sorted by input label; on the acyclic path the partition splits
/// the states exactly by signature, on the cyclic path it keeps apart
/// states with different pre-partition keys.  The classes are then
/// merged, the fst connected again and its transitions made unique.
pub open spec fn minimized_from(c: &VectorFst, acyclic_path: bool, f: &VectorFst) -> bool {
    exists|s: VectorFst, p: Partition, m: VectorFst, q: VectorFst|
        #[trigger] minimized_via(c, acyclic_path, f, s, p, m, q)
}

/// The steps of `minimized_from`: `s` is `c` sorted by input label, `p` the
/// partition of its states, `m` the fst with the classes merged, `q` that
/// fst connected, and `f` its transitions made unique.
pub open spec fn minimized_via(
    c: &VectorFst,
    acyclic_path: bool,
    f: &VectorFst,
    s: VectorFst,
    p: Partition,
    m: VectorFst,
    q: VectorFst,
) -> bool {
    &&& ilabel_sorted_of(c, &s)
    &&& if acyclic_path {
        sig_congruence(&s, p)
    } else {
        keeps_pre_keys(&s, p) && bisim_partition(&s, p) && crate::cyclic::coarsest_stable(&s, p) && (s.is_i_deterministic()
            && live(&s) && pre_keys_respect_lang(&s) ==> lang_together(&s, p))
    }
    &&& p.wf()
    &&& p.settled()
    &&& p.nonempty()
    &&& p.len() == s.n()
    &&& merged(&s, p, &m)
    &&& m.wf()
    &&& connect_result(m, q)
    &&& q.wf()
    &&& unique_of(&q, f)
}

/// The result of `acceptor_minimize` on an unweighted acceptor `f0`.
pub open spec fn acceptor_minimized(f0: VectorFst, acyclic_path: bool, f: VectorFst) -> bool {
    exists|c: VectorFst|
        #[trigger] connect_result(f0, c) && c.wf() && (c.n() == 0 ==> f == c) && (c.n() > 0 ==> minimized_from(
            &c,
            acyclic_path,
            &f,
        ))
}

/// Making the transitions unique keeps a connected fst connected.
pub proof fn lemma_unique_connected(q: &VectorFst, f: &VectorFst)
    requires
        q.is_connected(),
        unique_of(q, f),
    ensures
        f.is_connected(),
{
    assert(same_transitions(q, f)) by {
        assert forall|s: usize, x: crate::fst::Tr| (s as int) < q.n() implies (#[trigger] f.trs_at(s).contains(x)
            <==> q.trs_at(s).contains(x)) by {
            crate::tr_ops::lemma_unique_same(q.trs_at(s), x);
        }
    }
    lemma_same_transitions(q, f);
    assert forall|s: usize| (s as int) < f.n() implies #[trigger] f.accessible(s) && f.coaccessible(s) by {
        assert(q.accessible(s) && q.coaccessible(s));
    }
}

/// In place minimization of an unweighted acceptor.  If
/// `allow_acyclic_minimization` is true and the input is acyclic, the
/// acyclic minimization is applied, otherwise Hopcroft's refinement.
///
/// An error is returned if the input fst is not an unweighted acceptor.
/// This step does not minimize weights: an acceptor with a transition or
/// final weight other than `One` or `Zero` is refused with
/// `NotUnweightedAcceptor`, since the weighted minimization reaches it only
/// after encoding each (label, weight) pair as a label, which leaves an
/// unweighted acceptor.
pub fn acceptor_minimize(ifst: &mut VectorFst, allow_acyclic_minimization: bool) -> (r: Result<(), MinimizeError>)
    requires
        old(ifst).wf(),
        old(ifst).is_acceptor() && old(ifst).is_unweighted() ==> old(ifst).n() <= i32::MAX,
        old(ifst).is_acceptor() && old(ifst).is_unweighted() && !(allow_acyclic_minimization
            && old(ifst).acyclic()) ==> no_zero_final(old(ifst)),
    ensures
        r is Err <==> !(old(ifst).is_acceptor() && old(ifst).is_unweighted()),
        r is Err ==> r == Err::<(), MinimizeError>(MinimizeError::NotUnweightedAcceptor) && *final(ifst) == *old(ifst),
        r is Ok ==> final(ifst).wf(),
        r is Ok ==> final(ifst).is_connected(),
        r is Ok ==> final(ifst).n() <= old(ifst).n(),
        r is Ok ==> acceptor_minimized(
            *old(ifst),
            allow_acyclic_minimization && old(ifst).acyclic(),
            *final(ifst),
        ),
        r is Ok ==> forall|w: Seq<usize>| #[trigger] accepts_fst(final(ifst), w) == accepts_fst(old(ifst), w),
        r is Ok && old(ifst).is_i_deterministic() && no_zero_final(old(ifst)) ==> no_equivalent_states(final(ifst)),
        r is Ok && old(ifst).is_i_deterministic() && old(ifst).has_unit_weights() ==> final(ifst).is_i_deterministic(),
{
    let acceptor = check_acceptor(ifst);
    let unweighted = check_unweighted(ifst);
    if !(acceptor && unweighted) {
        return Err(MinimizeError::NotUnweightedAcceptor);
    }
    let acyclic = check_acyclic(ifst);
    let ghost f0 = *ifst;
    connect(ifst);
    let ghost c = *ifst;
    proof {
        f0.lemma_n_bound();
        lemma_kept_before_le(f0, f0.n());
        lemma_connect_connected(f0, c);
    }
    if ifst.num_states() == 0 {
        proof {
            assert(connect_result(f0, c) && c.wf() && (c.n() == 0 ==> c == c));
            let ap = allow_acyclic_minimization && f0.acyclic();
            assert(acceptor_minimized(f0, ap, *ifst));
            assert forall|w: Seq<usize>| #[trigger] accepts_fst(ifst, w) == accepts_fst(&f0, w) by {
                lemma_minimization_language(f0, ap, *ifst, w);
            }
            assert(no_equivalent_states(ifst));
            assert(ifst.is_i_deterministic());
        }
        return Ok(());
    }
    proof {
        assert(c.is_connected());
        assert(c.accessible(0));
        assert(c.start is Some);
    }
    if allow_acyclic_minimization && acyclic {
        proof {
            lemma_connect_acyclic(f0, c);
        }
        tr_sort_ilabel(ifst);
        let ghost s = *ifst;
        proof {
            assert forall|x: usize, t: crate::fst::Tr| (x as int) < c.n() implies (#[trigger] s.trs_at(x).contains(t)
                <==> c.trs_at(x).contains(t)) by {
                broadcast use vstd::seq_lib::group_to_multiset_ensures;

                lemma_sort_multiset(c.trs_at(x), false);
                assert(s.trs_at(x).contains(t) <==> s.trs_at(x).to_multiset().count(t) > 0);
                assert(c.trs_at(x).contains(t) <==> c.trs_at(x).to_multiset().count(t) > 0);
            }
            assert(same_transitions(&c, &s));
            lemma_same_transitions(&c, &s);
            assert forall|x: usize| (x as int) < s.n() implies #[trigger] s.accessible(x) by {
                assert(c.accessible(x));
            }
        }
        let minimizer = AcyclicMinimizer::new(ifst);
        let ghost p = minimizer.partition;
        merge_states(minimizer.get_partition(), ifst);
        let ghost q = *ifst;
        tr_unique(ifst);
        proof {
            let m = choose|m: VectorFst| merged(&s, p, &m) && m.wf() && connect_result(m, q);
            lemma_connect_connected(m, q);
            lemma_unique_connected(&q, ifst);
            m.lemma_n_bound();
            lemma_kept_before_le(m, m.n());
            assert(ilabel_sorted_of(&c, &s));
            assert(unique_of(&q, ifst));
            assert(minimized_via(&c, true, ifst, s, p, m, q));
            assert(minimized_from(&c, true, ifst));
            assert(connect_result(f0, c));
        }
    } else {
        proof {
            assert forall|q: usize| (q as int) < c.n() implies #[trigger] c.final_at(q) != Some(WEIGHT_ZERO) by {
                lemma_kept_before_onto(f0, f0.n(), q as int);
                let s0 = choose|s0: usize| (s0 as int) < f0.n() && kept(f0, s0) && kept_before(f0, s0 as int) == q;
                assert(c.trs_of(kept_before(f0, s0 as int) as int) == crate::connect::kept_trs(f0, f0.trs_of(s0 as int)));
                assert(f0.accessible(s0));
            }
        }
        tr_sort_ilabel(ifst);
        let ghost s = *ifst;
        proof {
            crate::minimality::lemma_sorted_of_props(&c, &s);
            assert forall|q: usize| (q as int) < s.n() implies #[trigger] s.final_at(q) != Some(WEIGHT_ZERO) by {
                assert(s.final_at(q) == c.final_at(q));
            }
        }
        let p = cyclic_minimize(ifst);
        let ghost pg = p;
        merge_states(p, ifst);
        let ghost q = *ifst;
        tr_unique(ifst);
        proof {
            let m = choose|m: VectorFst| merged(&s, pg, &m) && m.wf() && connect_result(m, q);
            assert(ilabel_sorted_of(&c, &s));
            lemma_connect_connected(m, q);
            lemma_unique_connected(&q, ifst);
            m.lemma_n_bound();
            lemma_kept_before_le(m, m.n());
            assert(unique_of(&q, ifst));
            assert(minimized_via(&c, false, ifst, s, pg, m, q));
            assert(minimized_from(&c, false, ifst));
            assert(connect_result(f0, c));
        }
    }
    proof {
        let ap = allow_acyclic_minimization && f0.acyclic();
        assert(acceptor_minimized(f0, ap, *ifst));
        assert forall|w: Seq<usize>| #[trigger] accepts_fst(ifst, w) == accepts_fst(&f0, w) by {
            lemma_minimization_language(f0, ap, *ifst, w);
        }
        if f0.is_i_deterministic() && f0.has_unit_weights() {
            lemma_minimized_deterministic(f0, ap, *ifst);
        }
        if f0.is_i_deterministic() && no_zero_final(&f0) {
            if ap {
                lemma_acyclic_minimal(f0, *ifst);
            } else {
                lemma_cyclic_minimal(f0, *ifst);
            }
        }
    }
    Ok(())
}

/// In place minimization of deterministic unweighted acceptors, and also of
/// non-deterministic ones when `allow_nondet` is true (the semiring is
/// idempotent).  A non-deterministic fst is refused when `allow_nondet` is
/// false; weighted acceptors and transducers are refused as unsupported.
pub fn minimize(ifst: &mut VectorFst, allow_nondet: bool) -> (r: Result<(), MinimizeError>)
    requires
        old(ifst).wf(),
        (old(ifst).is_i_deterministic() || allow_nondet) && old(ifst).is_acceptor() && old(ifst).is_unweighted()
            ==> old(ifst).n() <= i32::MAX,
        old(ifst).is_acceptor() && old(ifst).is_unweighted() && (old(ifst).is_i_deterministic() || allow_nondet)
            && !(old(ifst).is_i_deterministic() && old(ifst).acyclic()) ==> no_zero_final(old(ifst)),
    ensures
        !old(ifst).is_i_deterministic() && !allow_nondet ==> r == Err::<(), MinimizeError>(
            MinimizeError::NonDeterministic,
        ),
        (old(ifst).is_i_deterministic() || allow_nondet) && !(old(ifst).is_acceptor() && old(ifst).is_unweighted())
            ==> r == Err::<(), MinimizeError>(MinimizeError::Unsupported),
        (old(ifst).is_i_deterministic() || allow_nondet) && old(ifst).is_acceptor() && old(ifst).is_unweighted()
            ==> r is Ok,
        r is Err ==> *final(ifst) == *old(ifst),
        r is Ok ==> final(ifst).wf(),
        r is Ok ==> final(ifst).is_connected(),
        r is Ok ==> final(ifst).n() <= old(ifst).n(),
        r is Ok ==> acceptor_minimized(
            *old(ifst),
            old(ifst).is_i_deterministic() && old(ifst).acyclic(),
            *final(ifst),
        ),
        r is Ok ==> forall|w: Seq<usize>| #[trigger] accepts_fst(final(ifst), w) == accepts_fst(old(ifst), w),
        r is Ok && old(ifst).is_i_deterministic() && no_zero_final(old(ifst)) ==> no_equivalent_states(final(ifst)),
        r is Ok && old(ifst).is_i_deterministic() && old(ifst).has_unit_weights() ==> final(ifst).is_i_deterministic(),
{
    let deterministic = check_i_deterministic(ifst);
    let acceptor = check_acceptor(ifst);
    let unweighted = check_unweighted(ifst);
    let allow_acyclic_minimization = if deterministic {
        true
    } else {
        if !allow_nondet {
            return Err(MinimizeError::NonDeterministic);
        }
        false
    };
    if !acceptor || !unweighted {
        return Err(MinimizeError::Unsupported);
    }
    acceptor_minimize(ifst, allow_acyclic_minimization)
}

/// `minimize` with non-deterministic input refused.
pub fn minimize_default(ifst: &mut VectorFst) -> (r: Result<(), MinimizeError>)
    requires
        old(ifst).wf(),
        old(ifst).is_i_deterministic() && old(ifst).is_acceptor() && old(ifst).is_unweighted() ==> old(ifst).n()
            <= i32::MAX,
        old(ifst).is_acceptor() && old(ifst).is_unweighted() && old(ifst).is_i_deterministic() && !old(
            ifst,
        ).acyclic() ==> no_zero_final(old(ifst)),
    ensures
        !old(ifst).is_i_deterministic() ==> r == Err::<(), MinimizeError>(MinimizeError::NonDeterministic),
        old(ifst).is_i_deterministic() && !(old(ifst).is_acceptor() && old(ifst).is_unweighted()) ==> r == Err::<
            (),
            MinimizeError,
        >(MinimizeError::Unsupported),
        old(ifst).is_i_deterministic() && old(ifst).is_acceptor() && old(ifst).is_unweighted() ==> r is Ok,
        r is Err ==> *final(ifst) == *old(ifst),
        r is Ok ==> final(ifst).wf(),
        r is Ok ==> final(ifst).is_connected(),
        r is Ok ==> final(ifst).n() <= old(ifst).n(),
        r is Ok ==> acceptor_minimized(*old(ifst), old(ifst).acyclic(), *final(ifst)),
        r is Ok ==> forall|w: Seq<usize>| #[trigger] accepts_fst(final(ifst), w) == accepts_fst(old(ifst), w),
        r is Ok && no_zero_final(old(ifst)) ==> no_equivalent_states(final(ifst)),
        r is Ok && old(ifst).has_unit_weights() ==> final(ifst).is_i_deterministic(),
{
    minimize(ifst, false)
}

} // verus!
