use vstd::prelude::*;

use crate::cyclic::keeps_pre_keys;
use crate::cyclic::finer_than;
use crate::cyclic::pre_key;
use crate::fst::VectorFst;
use crate::hopcroft::ids_kept;
use crate::language::bisim_partition;
use crate::language::has_tr_into;
use crate::partition::Partition;

verus! {

/// State `x` has a transition with input label `l` into a state of `s`.
pub open spec fn tr_into(f: &VectorFst, x: usize, l: usize, s: Set<usize>) -> bool {
    exists|i: int| 0 <= i < f.trs_at(x).len() && (#[trigger] f.trs_at(x)[i]).ilabel == l && s.contains(f.trs_at(x)[i].nextstate)
}

/// States of a common class of `p` either both have a transition with label
/// `l` into `s` or neither has.
pub open spec fn stable_wrt(f: &VectorFst, p: Partition, s: Set<usize>, l: usize) -> bool {
    forall|x: usize, y: usize|
        #![trigger p.class_at(x), p.class_at(y)]
        (x as int) < f.n() && (y as int) < f.n() && p.class_at(x) == p.class_at(y) ==> (tr_into(f, x, l, s)
            == tr_into(f, y, l, s))
}

/// `p` is stable with respect to `s` for every label.
pub open spec fn stable_all(f: &VectorFst, p: Partition, s: Set<usize>) -> bool {
    forall|l: usize| #[trigger] stable_wrt(f, p, s, l)
}

/// The states of class `b`.
pub open spec fn class_set(f: &VectorFst, p: Partition, b: int) -> Set<usize> {
    Set::new(|x: usize| (x as int) < f.n() && p.class_at(x) == b)
}

/// Splitting classes keeps stability.
pub proof fn lemma_stable_refine(f: &VectorFst, p: Partition, p2: Partition, s: Set<usize>)
    requires
        finer_than(p2, p, f.n()),
        stable_all(f, p, s),
    ensures
        stable_all(f, p2, s),
{
    assert forall|l: usize| #[trigger] stable_wrt(f, p2, s, l) by {
        assert(stable_wrt(f, p, s, l));
        assert forall|x: usize, y: usize|
            (x as int) < f.n() && (y as int) < f.n() && #[trigger] p2.class_at(x) == #[trigger] p2.class_at(y)
            implies (tr_into(f, x, l, s) == tr_into(f, y, l, s)) by {
            assert(p.class_at(x) == p.class_at(y));
        }
    }
}

/// On a deterministic fst, stability with respect to `s` and to `c` gives
/// stability with respect to `s` without `c`.
pub proof fn lemma_stable_diff(f: &VectorFst, p: Partition, s: Set<usize>, c: Set<usize>)
    requires
        f.is_i_deterministic(),
        stable_all(f, p, s),
        stable_all(f, p, c),
    ensures
        stable_all(f, p, s.difference(c)),
{
    assert forall|l: usize| #[trigger] stable_wrt(f, p, s.difference(c), l) by {
        assert(stable_wrt(f, p, s, l));
        assert(stable_wrt(f, p, c, l));
        assert forall|x: usize| (x as int) < f.n() implies (tr_into(f, x, l, s.difference(c)) == (tr_into(f, x, l, s)
            && !tr_into(f, x, l, c))) by {
            if tr_into(f, x, l, s.difference(c)) {
                let i = choose|i: int|
                    0 <= i < f.trs_at(x).len() && (#[trigger] f.trs_at(x)[i]).ilabel == l && s.difference(c).contains(
                        f.trs_at(x)[i].nextstate,
                    );
                if tr_into(f, x, l, c) {
                    let j = choose|j: int|
                        0 <= j < f.trs_at(x).len() && (#[trigger] f.trs_at(x)[j]).ilabel == l && c.contains(
                            f.trs_at(x)[j].nextstate,
                        );
                    if i < j {
                        assert(f.trs_at(x)[i].ilabel != f.trs_at(x)[j].ilabel);
                    } else if j < i {
                        assert(f.trs_at(x)[j].ilabel != f.trs_at(x)[i].ilabel);
                    }
                }
            }
            if tr_into(f, x, l, s) && !tr_into(f, x, l, c) {
                let i = choose|i: int|
                    0 <= i < f.trs_at(x).len() && (#[trigger] f.trs_at(x)[i]).ilabel == l && s.contains(
                        f.trs_at(x)[i].nextstate,
                    );
                assert(!c.contains(f.trs_at(x)[i].nextstate));
                assert(s.difference(c).contains(f.trs_at(x)[i].nextstate));
            }
        }
    }
}

/// A partition that keeps the pre-partition keys and is stable with respect
/// to each of its classes holds alike states.
pub proof fn lemma_stable_bisim(f: &VectorFst, p: Partition)
    requires
        keeps_pre_keys(f, p),
        forall|x: usize| (x as int) < f.n() ==> #[trigger] f.final_at(x) != Some(crate::fst::WEIGHT_ZERO),
        forall|b: int| 0 <= b < p.k() ==> #[trigger] stable_all(f, p, class_set(f, p, b)),
        p.wf(),
        p.len() == f.n(),
        f.wf(),
    ensures
        bisim_partition(f, p),
{
    p.lemma_wf();
    assert forall|x: usize, z: usize|
        (x as int) < f.n() && (z as int) < f.n() && #[trigger] p.class_at(x) == #[trigger] p.class_at(z) implies crate::language::accepting(
        f,
        x,
    ) == crate::language::accepting(f, z) by {
        assert(pre_key(f, x) == pre_key(f, z));
        assert(f.final_at(x) != Some(crate::fst::WEIGHT_ZERO));
        assert(f.final_at(z) != Some(crate::fst::WEIGHT_ZERO));
    }
    assert forall|x: usize, z: usize, j: int|
        (x as int) < f.n() && (z as int) < f.n() && #[trigger] p.class_at(x) == p.class_at(z) && 0 <= j
            < f.trs_at(z).len() implies has_tr_into(
        f,
        p,
        x,
        (#[trigger] f.trs_at(z)[j]).ilabel,
        p.class_at(f.trs_at(z)[j].nextstate),
    ) by {
        let y = f.trs_at(z)[j].nextstate;
        let l = f.trs_at(z)[j].ilabel;
        let d = p.class_at(y);
        assert((y as int) < f.n());
        assert(p.class_of(y as int) < p.k());
        let cs = class_set(f, p, d);
        assert(stable_all(f, p, cs));
        assert(stable_wrt(f, p, cs, l));
        assert(cs.contains(y));
        assert(tr_into(f, z, l, cs));
        assert(tr_into(f, x, l, cs));
        let i = choose|i: int|
            0 <= i < f.trs_at(x).len() && (#[trigger] f.trs_at(x)[i]).ilabel == l && cs.contains(f.trs_at(x)[i].nextstate);
        reveal(has_tr_into);
        assert(f.trs_at(x)[i].ilabel == l && p.class_at(f.trs_at(x)[i].nextstate) == d);
    }
}

/// `s` covers class `b`: it holds the class, its other states lie in queued
/// classes or in `e`, and the partition is stable with respect to it.
pub open spec fn covered(f: &VectorFst, p: Partition, q: Seq<usize>, e: Set<usize>, s: Set<usize>, b: int) -> bool {
    &&& forall|x: usize| (x as int) < f.n() && p.class_at(x) == b ==> #[trigger] s.contains(x)
    &&& forall|x: usize|
        #[trigger] s.contains(x) ==> (x as int) < f.n() && (p.class_at(x) == b || q.contains(p.class_at(x) as usize)
            || e.contains(x))
    &&& stable_all(f, p, s)
}

/// Every class other than `skip` that is not queued is covered by its set in `sup`.
pub open spec fn all_covered(
    f: &VectorFst,
    p: Partition,
    q: Seq<usize>,
    e: Set<usize>,
    sup: Map<int, Set<usize>>,
    skip: int,
) -> bool {
    forall|b: int| #[trigger] needs_cover(p, q, skip, b) ==> sup.dom().contains(b) && covered(f, p, q, e, sup[b], b)
}

/// Class `b` is a class other than `skip` that is not queued.
pub open spec fn needs_cover(p: Partition, q: Seq<usize>, skip: int, b: int) -> bool {
    0 <= b < p.k() && b != skip && !q.contains(b as usize)
}

/// A sequence without repeats that holds two different values has at least
/// two entries.
proof fn lemma_two_members(s: Seq<usize>, x: usize, y: usize)
    requires
        s.contains(x),
        s.contains(y),
        x != y,
    ensures
        s.len() > 1,
{
    let i = choose|i: int| 0 <= i < s.len() && s[i] == x;
    let j = choose|j: int| 0 <= j < s.len() && s[j] == y;
    assert(i != j);
}

/// `finalize_split` after marking exactly the states of classes with more
/// than one member that have a transition with label `l` into `cs` leaves
/// the partition stable with respect to `cs` and `l`.
pub proof fn lemma_finalize_stable(f: &VectorFst, p0: Partition, p1: Partition, cs: Set<usize>, l: usize)
    requires
        p0.wf(),
        p0.len() == f.n(),
        forall|x: usize|
            (x as int) < p0.len() && !p0.moves(x) ==> #[trigger] p1.class_of(x as int) == p0.class_of(x as int),
        forall|x: usize|
            (x as int) < p0.len() && p0.moves(x) ==> #[trigger] p1.class_of(x as int) >= p0.k(),
        forall|x: usize, z: usize|
            (x as int) < p0.len() && (z as int) < p0.len() && p0.moves(x) && p0.moves(z) ==> (
            #[trigger] p1.class_of(x as int) == #[trigger] p1.class_of(z as int) <==> p0.class_of(x as int)
                == p0.class_of(z as int)),
        forall|x: usize| (x as int) < f.n() && #[trigger] p0.in_yes(x) ==> tr_into(f, x, l, cs),
        forall|x: usize|
            (x as int) < f.n() && #[trigger] tr_into(f, x, l, cs) && p0.class_size(p0.class_at(x)) > 1 ==> p0.in_yes(x),
    ensures
        stable_wrt(f, p1, cs, l),
{
    p0.lemma_wf();
    assert forall|x: usize, y: usize|
        (x as int) < f.n() && (y as int) < f.n() && #[trigger] p1.class_at(x) == #[trigger] p1.class_at(y) implies (tr_into(
        f,
        x,
        l,
        cs,
    ) == tr_into(f, y, l, cs)) by {
        if x != y {
            assert(p0.class_of(x as int) < p0.k());
            assert(p0.class_of(y as int) < p0.k());
            assert(p0.moves(x) == p0.moves(y));
            assert(p0.class_at(x) == p0.class_at(y));
            let b = p0.class_at(x);
            let ms = p0.no_of(b) + p0.yes_of(b);
            assert(ms.contains(x));
            assert(ms.contains(y));
            lemma_two_members(ms, x, y);
            assert(p0.class_size(b) > 1);
            if p0.yes_of(b).len() == 0 {
                assert(!p0.in_yes(x));
                assert(!p0.in_yes(y));
            } else if p0.no_of(b).len() == 0 {
                assert(ms =~= p0.yes_of(b));
                assert(p0.in_yes(x));
                assert(p0.in_yes(y));
            }
            assert(p0.in_yes(x) == p0.in_yes(y));
            if tr_into(f, x, l, cs) {
                assert(p0.in_yes(x));
            }
            if tr_into(f, y, l, cs) {
                assert(p0.in_yes(y));
            }
        }
    }
}

/// Two different members of one class make it hold more than one member.
pub proof fn lemma_class_two(p: Partition, x: usize, y: usize)
    requires
        p.wf(),
        (x as int) < p.len(),
        (y as int) < p.len(),
        x != y,
        p.class_at(x) == p.class_at(y),
    ensures
        p.class_size(p.class_at(x)) > 1,
{
    p.lemma_wf();
    let b = p.class_at(x);
    assert(0 <= b < p.k());
    let ms = p.no_of(b) + p.yes_of(b);
    assert(ms.contains(x));
    assert(ms.contains(y));
    lemma_two_members(ms, x, y);
}

/// `finalize_split` keeps together two members of one class that are both
/// marked or both unmarked.
pub proof fn lemma_finalize_together(p0: Partition, p1: Partition, x: usize, y: usize)
    requires
        p0.wf(),
        forall|x: usize|
            (x as int) < p0.len() && !p0.moves(x) ==> #[trigger] p1.class_of(x as int) == p0.class_of(x as int),
        forall|x: usize, z: usize|
            (x as int) < p0.len() && (z as int) < p0.len() && p0.moves(x) && p0.moves(z) ==> (
            #[trigger] p1.class_of(x as int) == #[trigger] p1.class_of(z as int) <==> p0.class_of(x as int)
                == p0.class_of(z as int)),
        (x as int) < p0.len(),
        (y as int) < p0.len(),
        p0.class_at(x) == p0.class_at(y),
        p0.in_yes(x) == p0.in_yes(y),
    ensures
        p1.class_at(x) == p1.class_at(y),
{
    assert(p0.moves(x) == p0.moves(y));
    if p0.moves(x) {
        assert(p1.class_of(x as int) == p1.class_of(y as int));
    } else {
        assert(p1.class_of(x as int) == p0.class_of(x as int));
        assert(p1.class_of(y as int) == p0.class_of(y as int));
    }
}

/// The covering sets after class `c` has been processed as a splitter: `c`
/// is covered by its members, every other class by its former set without
/// those members.
pub open spec fn next_sup(sup: Map<int, Set<usize>>, c: int, cs: Set<usize>) -> Map<int, Set<usize>> {
    Map::new(|b: int| true, |b: int| if b == c { cs } else { sup[b].difference(cs) })
}

/// Processing the last queued class as a splitter keeps every class that is
/// not queued covered.
pub proof fn lemma_covered_step(
    f: &VectorFst,
    p0: Partition,
    p1: Partition,
    qb: Seq<usize>,
    q1: Seq<usize>,
    sup: Map<int, Set<usize>>,
)
    requires
        f.wf(),
        f.is_i_deterministic(),
        p0.wf(),
        p0.len() == f.n(),
        p1.wf(),
        p1.len() == f.n(),
        p1.k() >= p0.k(),
        qb.len() > 0,
        (qb.last() as int) < p0.k(),
        all_covered(f, p0, qb, Set::empty(), sup, -1),
        q1 == qb.drop_last() + Seq::new((p1.k() - p0.k()) as nat, |i: int| (p0.k() + i) as usize),
        finer_than(p1, p0, f.n()),
        ids_kept(p0, p1, f.n()),
        stable_all(f, p1, class_set(f, p0, qb.last() as int)),
    ensures
        all_covered(f, p1, q1, Set::empty(), next_sup(sup, qb.last() as int, class_set(f, p0, qb.last() as int)), -1),
{
    let c = qb.last() as int;
    let cs = class_set(f, p0, c);
    let qa = qb.drop_last();
    let k0 = p0.k();
    let ns = next_sup(sup, c, cs);
    let e = Set::<usize>::empty();
    p0.lemma_wf();
    p1.lemma_wf();
    p1.lemma_k_bound();
    assert forall|d: int| k0 <= d < p1.k() implies #[trigger] q1.contains(d as usize) by {
        assert(q1[qa.len() + (d - k0)] == (d as usize));
    }
    assert forall|d: usize| qa.contains(d) implies q1.contains(d) by {
        let i = choose|i: int| 0 <= i < qa.len() && qa[i] == d;
        assert(q1[i] == d);
    }
    assert forall|d: usize| qb.contains(d) && d as int != c implies qa.contains(d) by {
        let i = choose|i: int| 0 <= i < qb.len() && qb[i] == d;
        assert(i != qb.len() - 1);
        assert(qa[i] == d);
    }
    assert forall|b: int| #[trigger] needs_cover(p1, q1, -1, b) implies ns.dom().contains(b)
        && covered(f, p1, q1, e, ns[b], b) by {
        assert(b < k0) by {
            if b >= k0 {
                assert(q1.contains(b as usize));
            }
        }
        if b == c {
            assert(ns[b] == cs);
            assert forall|x: usize| (x as int) < f.n() && p1.class_at(x) == b implies #[trigger] cs.contains(x) by {
                assert(p1.class_at(x) == p0.class_at(x));
            }
            assert forall|x: usize| #[trigger] cs.contains(x) implies (x as int) < f.n() && (p1.class_at(x) == b
                || q1.contains(p1.class_at(x) as usize) || e.contains(x)) by {
                assert(p1.class_of(x as int) < p1.k());
                if p1.class_at(x) < k0 {
                    assert(p1.class_at(x) == p0.class_at(x));
                } else {
                    assert(q1.contains(p1.class_at(x) as usize));
                }
            }
        } else {
            assert(!qa.contains(b as usize));
            assert((b as usize) as int == b);
            assert(!qb.contains(b as usize));
            assert(needs_cover(p0, qb, -1, b));
            assert(sup.dom().contains(b) && covered(f, p0, qb, e, sup[b], b));
            let sb = sup[b];
            assert(ns[b] == sb.difference(cs));
            assert forall|x: usize| (x as int) < f.n() && p1.class_at(x) == b implies #[trigger] sb.difference(cs).contains(x) by {
                assert(p1.class_at(x) == p0.class_at(x));
                assert(sb.contains(x));
                assert(!cs.contains(x));
            }
            assert forall|x: usize| #[trigger] sb.difference(cs).contains(x) implies (x as int) < f.n() && (p1.class_at(x) == b
                || q1.contains(p1.class_at(x) as usize) || e.contains(x)) by {
                assert(sb.contains(x));
                assert(p1.class_of(x as int) < p1.k());
                assert(p0.class_of(x as int) < p0.k());
                if p1.class_at(x) >= k0 {
                    assert(q1.contains(p1.class_at(x) as usize));
                } else {
                    assert(p1.class_at(x) == p0.class_at(x));
                    if p0.class_at(x) != b {
                        assert(qb.contains(p0.class_at(x) as usize));
                        assert(p0.class_at(x) != c);
                        assert(qa.contains(p0.class_at(x) as usize));
                    }
                }
            }
            lemma_stable_refine(f, p0, p1, sb);
            lemma_stable_diff(f, p1, sb, cs);
        }
    }
}

} // verus!
