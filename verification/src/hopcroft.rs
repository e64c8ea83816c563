use vstd::prelude::*;

use crate::collections::heap_is_empty;
use crate::collections::heap_items;
use crate::collections::heap_new_min;
use crate::collections::heap_pop;
use crate::collections::heap_push;
use crate::collections::triple_le;
use crate::cyclic::finer_than;
use crate::cyclic::items_of;
use crate::cyclic::iter_item;
use crate::cyclic::lemma_finalize_finer;
use crate::cyclic::lemma_items_advance;
use crate::cyclic::lemma_items_frame;
use crate::cyclic::lemma_items_member;
use crate::cyclic::lemma_items_member_or_not;
use crate::cyclic::lemma_pred_targets;
use crate::cyclic::lemma_rev_sorted_pred;
use crate::cyclic::lemma_sort_targets;
use crate::cyclic::pred_trs;
use crate::cyclic::rem_of;
use crate::cyclic::rev_sorted;
use crate::cyclic::TrsIterCollected;
use crate::fst::Tr;
use crate::fst::VectorFst;
use crate::partition::Partition;
use crate::queue::LifoQueue;
use crate::stability::class_set;
use crate::stability::lemma_class_two;
use crate::stability::lemma_finalize_stable;
use crate::stability::lemma_finalize_together;
use crate::stability::stable_all;
use crate::stability::stable_wrt;
use crate::stability::tr_into;
use crate::tr_ops::key_sorted;
use crate::tr_ops::lemma_sort_sorted;

verus! {

/// Every element whose class in `p1` is an old class id kept its class.
pub open spec fn ids_kept(p0: Partition, p1: Partition, n: int) -> bool {
    forall|x: usize| #![trigger p1.class_at(x)] (x as int) < n && p1.class_at(x) < p0.k() ==> p1.class_at(x) == p0.class_at(x)
}

/// `x` and `y` have transitions into `cs` with the same labels.
pub open spec fn same_profile(f: &VectorFst, cs: Set<usize>, x: usize, y: usize) -> bool {
    forall|l: usize| #![trigger tr_into(f, x, l, cs)] #![trigger tr_into(f, y, l, cs)] tr_into(f, x, l, cs) == tr_into(f, y, l, cs)
}

/// `p1` separates two states of a common class of `p0` only where their
/// transitions into `cs` differ.
pub open spec fn splits_by_profile(f: &VectorFst, p0: Partition, p1: Partition, cs: Set<usize>) -> bool {
    forall|x: usize, y: usize|
        #![trigger p1.class_at(x), p1.class_at(y)]
        (x as int) < f.n() && (y as int) < f.n() && p0.class_at(x) == p0.class_at(y) && same_profile(f, cs, x, y)
            ==> p1.class_at(x) == p1.class_at(y)
}

/// The consumed entries (before the cursors) have labels at most `l`.
pub open spec fn consumed_le(its: Seq<TrsIterCollected>, tv: Seq<Seq<Tr>>, m: int, l: usize) -> bool {
    forall|q: int, j: int| 0 <= q < m && 0 <= j < its[q].idx ==> (#[trigger] tv[q][j]).ilabel <= l
}

/// The entries at and after the cursors have labels at least `l`.
pub open spec fn unconsumed_ge(its: Seq<TrsIterCollected>, tv: Seq<Seq<Tr>>, m: int, l: usize) -> bool {
    forall|q: int, j: int| 0 <= q < m && its[q].idx <= j < tv[q].len() ==> (#[trigger] tv[q][j]).ilabel >= l
}

/// Every consumed entry with label `l` has marked its source, unless the
/// source is alone in its class.
pub open spec fn marked_consumed(p: Partition, its: Seq<TrsIterCollected>, tv: Seq<Seq<Tr>>, m: int, l: usize) -> bool {
    forall|q: int, j: int|
        0 <= q < m && 0 <= j < its[q].idx && (#[trigger] tv[q][j]).ilabel == l && p.class_size(
            p.class_at(tv[q][j].nextstate),
        ) > 1 ==> p.in_yes(tv[q][j].nextstate)
}

/// Only states with a transition with label `l` into `cs` are marked.
pub open spec fn marks_sound(f: &VectorFst, p: Partition, cs: Set<usize>, l: usize) -> bool {
    forall|x: usize| (x as int) < f.n() && #[trigger] p.in_yes(x) ==> tr_into(f, x, l, cs)
}

/// Each transition into `cs` appears, reversed, among the entries.
pub open spec fn entries_complete(f: &VectorFst, cs: Set<usize>, tv: Seq<Seq<Tr>>) -> bool {
    forall|x: usize, l: usize|
        (x as int) < f.n() && #[trigger] tr_into(f, x, l, cs) ==> exists|q: int, j: int|
            0 <= q < tv.len() && 0 <= j < tv[q].len() && (#[trigger] tv[q][j]).ilabel == l && tv[q][j].nextstate == x
}

/// Each entry is a transition into `cs`, reversed.
pub open spec fn entries_sound(f: &VectorFst, cs: Set<usize>, tv: Seq<Seq<Tr>>) -> bool {
    forall|q: int, j: int|
        0 <= q < tv.len() && 0 <= j < tv[q].len() ==> ((#[trigger] tv[q][j]).nextstate as int) < f.n() && tr_into(
            f,
            tv[q][j].nextstate,
            tv[q][j].ilabel,
            cs,
        )
}

/// The entries of each cursor are sorted by label.
pub open spec fn entries_sorted(tv: Seq<Seq<Tr>>) -> bool {
    forall|q: int| 0 <= q < tv.len() ==> key_sorted(#[trigger] tv[q], false)
}

/// No marked state.
pub open spec fn no_marks(p: Partition, n: int) -> bool {
    forall|x: usize| (x as int) < n ==> !#[trigger] p.in_yes(x)
}

/// Stability with respect to one label survives splitting classes.
pub proof fn lemma_stable_wrt_refine(f: &VectorFst, p: Partition, p2: Partition, s: Set<usize>, l: usize)
    requires
        finer_than(p2, p, f.n()),
        stable_wrt(f, p, s, l),
    ensures
        stable_wrt(f, p2, s, l),
{
    assert forall|x: usize, y: usize|
        (x as int) < f.n() && (y as int) < f.n() && #[trigger] p2.class_at(x) == #[trigger] p2.class_at(y) implies (tr_into(
        f,
        x,
        l,
        s,
    ) == tr_into(f, y, l, s)) by {
        assert(p.class_at(x) == p.class_at(y));
    }
}

/// A label that no entry carries: no state has a transition with that label
/// into `cs`, so every partition is stable with respect to it.
pub proof fn lemma_no_entry_stable(f: &VectorFst, p: Partition, cs: Set<usize>, tv: Seq<Seq<Tr>>, l: usize)
    requires
        entries_complete(f, cs, tv),
        forall|q: int, j: int| 0 <= q < tv.len() && 0 <= j < tv[q].len() ==> (#[trigger] tv[q][j]).ilabel != l,
    ensures
        stable_wrt(f, p, cs, l),
{
    assert forall|x: usize| (x as int) < f.n() implies !tr_into(f, x, l, cs) by {
        if tr_into(f, x, l, cs) {
            let (q, j) = choose|q: int, j: int|
                0 <= q < tv.len() && 0 <= j < tv[q].len() && (#[trigger] tv[q][j]).ilabel == l && tv[q][j].nextstate == x;
        }
    }
}

/// A settled partition marks nothing.
pub proof fn lemma_settled_no_marks(p: Partition)
    requires
        p.wf(),
        p.settled(),
    ensures
        no_marks(p, p.len() as int),
{
    p.lemma_wf();
    assert forall|x: usize| (x as int) < p.len() implies !#[trigger] p.in_yes(x) by {
        assert(p.class_of(x as int) < p.k());
        assert(p.yes_of(p.class_of(x as int)).len() == 0);
    }
}

/// The heap pops an entry no larger than any entry still ahead of a cursor.
pub proof fn lemma_heap_min(its: Seq<TrsIterCollected>, tv: Seq<Seq<Tr>>, m: int, hb: vstd::multiset::Multiset<(usize, usize, usize)>, x: (usize, usize, usize))
    requires
        0 <= m <= usize::MAX,
        its.len() == m,
        tv.len() == m,
        forall|q: int| 0 <= q < m ==> (#[trigger] its[q]).trs@ == tv[q] && its[q].idx <= tv[q].len(),
        entries_sorted(tv),
        hb == items_of(its, m),
        forall|z: (usize, usize, usize)| #[trigger] hb.contains(z) ==> triple_le(x, z),
    ensures
        unconsumed_ge(its, tv, m, x.0),
{
    assert forall|q: int, j: int| 0 <= q < m && its[q].idx <= j < tv[q].len() implies (#[trigger] tv[q][j]).ilabel >= x.0 by {
        lemma_items_member_or_not(its, q, m);
        let it = iter_item(its[q], q);
        assert(hb.contains(it));
        assert(triple_le(x, it));
        assert(key_sorted(tv[q], false));
        if j > its[q].idx {
            assert(!crate::tr_ops::tr_key_lt(tv[q][j], tv[q][its[q].idx as int], false));
        }
    }
}

/// Processes class `c` as a splitter: for each label, in increasing order,
/// the states with a transition with that label into a member of `c` are
/// marked and split from their classes.  Afterwards the partition is
/// stable with respect to the members of `c`.
pub fn process_class(
    fst: &VectorFst,
    rv: &Vec<Vec<Tr>>,
    partition: &mut Partition,
    queue: &mut LifoQueue,
    c: usize,
)
    requires
        fst.wf(),
        rv@.len() == fst.n(),
        forall|t: usize| (t as int) < fst.n() ==> (#[trigger] rv@[t as int])@ == rev_sorted(fst, t),
        old(partition).wf(),
        old(partition).settled(),
        old(partition).nonempty(),
        old(partition).len() == fst.n(),
        (c as int) < old(partition).k(),
    ensures
        final(partition).wf(),
        final(partition).settled(),
        final(partition).nonempty(),
        final(partition).len() == fst.n(),
        final(partition).k() >= old(partition).k(),
        finer_than(*final(partition), *old(partition), fst.n()),
        ids_kept(*old(partition), *final(partition), fst.n()),
        final(queue)@ == old(queue)@ + Seq::new(
            (final(partition).k() - old(partition).k()) as nat,
            |i: int| (old(partition).k() + i) as usize,
        ),
        stable_all(fst, *final(partition), class_set(fst, *old(partition), c as int)),
        splits_by_profile(fst, *old(partition), *final(partition), class_set(fst, *old(partition), c as int)),
{
    let ghost p0 = *partition;
    let ghost q0 = queue@;
    let ghost n = fst.n();
    let ghost cs = class_set(fst, p0, c as int);
    proof {
        p0.lemma_wf();
        fst.lemma_n_bound();
    }
    let members = partition.iter(c);
    let mcount = members.len();
    let ghost tv = Seq::new(mcount as nat, |q: int| rv@[members@[q] as int]@);
    proof {
        assert forall|q: int| 0 <= q < mcount implies (#[trigger] members@[q] as int) < n && cs.contains(members@[q]) by {
            assert(members@.contains(members@[q]));
        }
        assert forall|q: int| 0 <= q < mcount implies key_sorted(#[trigger] tv[q], false) by {
            lemma_sort_sorted(pred_trs(fst, members@[q], n), false);
        }
        assert forall|q: int, j: int| 0 <= q < tv.len() && 0 <= j < tv[q].len() implies ((#[trigger] tv[q][j]).nextstate as int)
            < fst.n() && tr_into(fst, tv[q][j].nextstate, tv[q][j].ilabel, cs) by {
            let t = members@[q];
            assert(cs.contains(t));
            lemma_pred_targets(fst, t, n);
            lemma_sort_targets(pred_trs(fst, t, n), false, n);
            assert(tv[q] == rev_sorted(fst, t));
            let e = tv[q][j];
            assert(e.nextstate < n);
            lemma_rev_sorted_pred(fst, t, e.nextstate, e.ilabel);
            assert(rev_sorted(fst, t)[j].ilabel == e.ilabel && rev_sorted(fst, t)[j].nextstate == e.nextstate);
            let i = choose|i: int|
                0 <= i < fst.trs_at(e.nextstate).len() && (#[trigger] fst.trs_at(e.nextstate)[i]).ilabel == e.ilabel
                    && fst.trs_at(e.nextstate)[i].nextstate == t;
        }
        assert forall|x: usize, l: usize| (x as int) < fst.n() && #[trigger] tr_into(fst, x, l, cs) implies exists|q: int, j: int|
            0 <= q < tv.len() && 0 <= j < tv[q].len() && (#[trigger] tv[q][j]).ilabel == l && tv[q][j].nextstate == x by {
            let i = choose|i: int|
                0 <= i < fst.trs_at(x).len() && (#[trigger] fst.trs_at(x)[i]).ilabel == l && cs.contains(fst.trs_at(x)[i].nextstate);
            let t = fst.trs_at(x)[i].nextstate;
            assert(members@.contains(t));
            let q = choose|q: int| 0 <= q < members@.len() && members@[q] == t;
            lemma_rev_sorted_pred(fst, t, x, l);
            let j = choose|j: int| 0 <= j < rev_sorted(fst, t).len() && (#[trigger] rev_sorted(fst, t)[j]).ilabel == l
                && rev_sorted(fst, t)[j].nextstate == x;
            assert(tv[q] == rev_sorted(fst, t));
            assert(tv[q][j].ilabel == l && tv[q][j].nextstate == x);
        }
        assert(entries_complete(fst, cs, tv));
        assert(entries_sound(fst, cs, tv));
    }
    let mut iters: Vec<TrsIterCollected> = Vec::new();
    let mut heap = heap_new_min();
    proof {
        assert(heap_items(heap) =~= items_of(iters@, 0));
    }
    let mut p: usize = 0;
    while p < mcount
        invariant
            n == fst.n(),
            rv@.len() == n,
            members@.len() == mcount,
            tv.len() == mcount,
            forall|q: int| 0 <= q < mcount ==> #[trigger] tv[q] == rv@[members@[q] as int]@,
            forall|q: int| 0 <= q < mcount ==> (#[trigger] members@[q] as int) < n,
            p <= mcount,
            iters@.len() == p,
            heap_items(heap) == items_of(iters@, p as int),
            forall|q: int| 0 <= q < p ==> (#[trigger] iters@[q]).trs@ == tv[q] && iters@[q].idx == 0,
        decreases mcount - p,
    {
        let s = members[p];
        let it = TrsIterCollected { idx: 0, trs: &rv[s] };
        let ghost before = iters@;
        if rv[s].len() > 0 {
            heap_push(&mut heap, (rv[s][0].ilabel, p, 0));
        }
        iters.push(it);
        proof {
            assert forall|q: int| 0 <= q < p implies #[trigger] iters@[q] == before[q] by {}
            lemma_items_frame(before, iters@, p as int);
            assert(iters@[p as int] == it);
            assert(tv[p as int] == rv@[s as int]@);
            if rv[s as int]@.len() > 0 {
                assert(iter_item(it, p as int) == (rv[s as int]@[0].ilabel, p, 0usize));
            }
        }
        p = p + 1;
    }
    let ghost k0 = p0.k();
    let mut prev_label: Option<usize> = None;
    while !heap_is_empty(&heap)
        invariant
            n == fst.n(),
            fst.wf(),
            tv.len() == mcount,
            iters@.len() == mcount,
            mcount <= usize::MAX,
            forall|q: int| 0 <= q < mcount ==> (#[trigger] iters@[q]).trs@ == tv[q] && iters@[q].idx <= tv[q].len(),
            heap_items(heap) == items_of(iters@, mcount as int),
            entries_complete(fst, cs, tv),
            entries_sound(fst, cs, tv),
            entries_sorted(tv),
            partition.wf(),
            partition.nonempty(),
            partition.len() == n,
            partition.k() >= k0,
            k0 == p0.k(),
            p0.wf(),
            p0.len() == n,
            finer_than(*partition, p0, n),
            ids_kept(p0, *partition, n),
            splits_by_profile(fst, p0, *partition, cs),
            queue@ == q0 + Seq::new((partition.k() - k0) as nat, |i: int| (k0 + i) as usize),
            prev_label is None ==> partition.settled() && forall|q: int| 0 <= q < mcount ==> (#[trigger] iters@[q]).idx == 0,
            prev_label matches Some(l0) ==> consumed_le(iters@, tv, mcount as int, l0) && unconsumed_ge(
                iters@,
                tv,
                mcount as int,
                l0,
            ) && (forall|l: usize| l < l0 ==> #[trigger] stable_wrt(fst, *partition, cs, l)) && marks_sound(
                fst,
                *partition,
                cs,
                l0,
            ) && marked_consumed(*partition, iters@, tv, mcount as int, l0),
        decreases rem_of(iters@, mcount as int),
    {
        let ghost its0 = iters@;
        let ghost hb = heap_items(heap);
        let item = heap_pop(&mut heap);
        let (il, pos, idx) = match item {
            Some(x) => x,
            None => (0, 0, 0),
        };
        proof {
            lemma_items_member(its0, mcount as int, item.unwrap());
            lemma_heap_min(its0, tv, mcount as int, hb, item.unwrap());
            assert(il == tv[pos as int][idx as int].ilabel);
        }
        let aiter = iters[pos];
        let tr = match aiter.peek() {
            Some(t) => *t,
            None => Tr { ilabel: 0, olabel: 0, weight: 0, nextstate: 0 },
        };
        let from_state = tr.nextstate;
        let from_label = tr.ilabel;
        proof {
            assert(tr == tv[pos as int][idx as int]);
            assert((from_state as int) < n);
            assert(from_label == il);
        }
        let differs = match prev_label {
            Some(l) => l != from_label,
            None => true,
        };
        if differs {
            let ghost pb = *partition;
            partition.finalize_split(queue);
            proof {
                lemma_finalize_finer(pb, *partition);
                let pa = *partition;
                assert(ids_kept(p0, pa, n)) by {
                    assert forall|x: usize| (x as int) < n && #[trigger] pa.class_at(x) < p0.k() implies pa.class_at(x) == p0.class_at(x) by {
                        assert(pb.class_of(x as int) < pb.k()) by {
                            pb.lemma_wf();
                        }
                        if pb.moves(x) {
                            assert(pa.class_of(x as int) >= pb.k());
                        }
                        assert(pa.class_of(x as int) == pb.class_of(x as int));
                        assert(pb.class_at(x) < p0.k());
                        assert(pb.class_at(x) == p0.class_at(x));
                    }
                }
                assert(finer_than(pa, p0, n)) by {
                    assert forall|x: usize, y: usize|
                        (x as int) < n && (y as int) < n && #[trigger] pa.class_at(x) == #[trigger] pa.class_at(y) implies p0.class_at(x)
                        == p0.class_at(y) by {
                        assert(pb.class_at(x) == pb.class_at(y));
                    }
                }
                match prev_label {
                    Some(l0) => {
                        assert forall|x: usize|
                            (x as int) < fst.n() && #[trigger] tr_into(fst, x, l0, cs) && pb.class_size(pb.class_at(x)) > 1 implies pb.in_yes(x) by {
                            let (q, j) = choose|q: int, j: int|
                                0 <= q < tv.len() && 0 <= j < tv[q].len() && (#[trigger] tv[q][j]).ilabel == l0 && tv[q][j].nextstate == x;
                            if j >= its0[q].idx {
                                assert(tv[q][j].ilabel >= il);
                            }
                        }
                        lemma_finalize_stable(fst, pb, pa, cs, l0);
                        assert forall|x: usize, y: usize|
                            (x as int) < n && (y as int) < n && p0.class_at(x) == p0.class_at(y) && same_profile(fst, cs, x, y)
                            implies #[trigger] pa.class_at(x) == #[trigger] pa.class_at(y) by {
                            assert(pb.class_at(x) == pb.class_at(y));
                            if x != y {
                                lemma_class_two(pb, x, y);
                                assert(tr_into(fst, x, l0, cs) == tr_into(fst, y, l0, cs));
                            }
                            lemma_finalize_together(pb, pa, x, y);
                        }
                        assert forall|l: usize| l < il implies #[trigger] stable_wrt(fst, pa, cs, l) by {
                            if l < l0 {
                                assert(stable_wrt(fst, pb, cs, l));
                                lemma_stable_wrt_refine(fst, pb, pa, cs, l);
                            } else if l > l0 {
                                assert forall|q: int, j: int| 0 <= q < tv.len() && 0 <= j < tv[q].len() implies (#[trigger] tv[q][j]).ilabel != l by {
                                    if j < its0[q].idx {
                                        assert(tv[q][j].ilabel <= l0);
                                    } else {
                                        assert(tv[q][j].ilabel >= il);
                                    }
                                }
                                lemma_no_entry_stable(fst, pa, cs, tv, l);
                            }
                        }
                    },
                    None => {
                        lemma_settled_no_marks(pb);
                        assert forall|x: usize, y: usize|
                            (x as int) < n && (y as int) < n && p0.class_at(x) == p0.class_at(y) && same_profile(fst, cs, x, y)
                            implies #[trigger] pa.class_at(x) == #[trigger] pa.class_at(y) by {
                            assert(pb.class_at(x) == pb.class_at(y));
                            lemma_finalize_together(pb, pa, x, y);
                        }
                        assert forall|l: usize| l < il implies #[trigger] stable_wrt(fst, pa, cs, l) by {
                            assert forall|q: int, j: int| 0 <= q < tv.len() && 0 <= j < tv[q].len() implies (#[trigger] tv[q][j]).ilabel != l by {
                                assert(its0[q].idx == 0);
                                assert(tv[q][j].ilabel >= il);
                            }
                            lemma_no_entry_stable(fst, pa, cs, tv, l);
                        }
                    },
                }
                lemma_settled_no_marks(pa);
            }
        }
        let ghost pm = *partition;
        proof {
            partition.lemma_wf();
            assert(partition.class_id_bound(from_state as int));
        }
        let from_class = partition.get_class_id(from_state);
        let big = partition.get_class_size(from_class) > 1;
        if big {
            partition.split_on(from_state);
        }
        prev_label = Some(from_label);
        let mut next_it = aiter;
        proof {
            assert(aiter.trs@.len() == aiter.trs.len());
        }
        next_it.next();
        let ghost hc = heap_items(heap);
        iters.set(pos, next_it);
        proof {
            lemma_items_advance(its0, pos as int, next_it, mcount as int);
        }
        if !next_it.done() {
            let t2 = match next_it.peek() {
                Some(t) => *t,
                None => Tr { ilabel: 0, olabel: 0, weight: 0, nextstate: 0 },
            };
            heap_push(&mut heap, (t2.ilabel, pos, next_it.idx));
            proof {
                assert(iter_item(next_it, pos as int) == (t2.ilabel, pos, next_it.idx));
            }
        }
        proof {
            let pn = *partition;
            let its1 = iters@;
            assert forall|q: int| 0 <= q < mcount implies (#[trigger] its1[q]).trs@ == tv[q] && its1[q].idx <= tv[q].len() by {
                if q != pos {
                    assert(its1[q] == its0[q]);
                }
            }
            // class sizes and classes are unchanged by the mark
            assert forall|x: usize| (x as int) < n implies #[trigger] pn.class_at(x) == pm.class_at(x) by {
                if big {
                    assert(pn.class_of(x as int) == pm.class_of(x as int));
                }
            }
            assert forall|b: int| 0 <= b < pm.k() implies #[trigger] pn.class_size(b) == pm.class_size(b) by {
                if big {
                    if b != pm.class_at(from_state) {
                        assert(pn.no_of(b) == pm.no_of(b) && pn.yes_of(b) == pm.yes_of(b));
                    }
                }
            }
            assert(finer_than(pn, p0, n)) by {
                assert forall|x: usize, y: usize|
                    (x as int) < n && (y as int) < n && #[trigger] pn.class_at(x) == #[trigger] pn.class_at(y) implies p0.class_at(x)
                    == p0.class_at(y) by {
                    assert(pm.class_at(x) == pm.class_at(y));
                }
            }
            assert(ids_kept(p0, pn, n)) by {
                assert forall|x: usize| (x as int) < n && #[trigger] pn.class_at(x) < p0.k() implies pn.class_at(x) == p0.class_at(x) by {
                    assert(pm.class_at(x) == pn.class_at(x));
                }
            }
            assert forall|x: usize, y: usize|
                (x as int) < n && (y as int) < n && p0.class_at(x) == p0.class_at(y) && same_profile(fst, cs, x, y)
                implies #[trigger] pn.class_at(x) == #[trigger] pn.class_at(y) by {
                assert(pm.class_at(x) == pm.class_at(y));
            }
            if big {
                assert(pn.nonempty()) by {
                    assert forall|b: int| 0 <= b < pn.k() implies #[trigger] pn.has_member(b) by {
                        assert(pm.has_member(b));
                        let e = choose|e: int| 0 <= e < pm.len() && #[trigger] pm.class_of(e) == b;
                        assert(pn.class_of(e) == b);
                    }
                }
            }
            // labels
            assert(consumed_le(its1, tv, mcount as int, il)) by {
                assert forall|q: int, j: int| 0 <= q < mcount && 0 <= j < its1[q].idx implies (#[trigger] tv[q][j]).ilabel <= il by {
                    if q != pos {
                        assert(its1[q] == its0[q]);
                        match prev_label {
                            Some(_) => {},
                            None => {},
                        }
                    }
                }
            }
            assert(unconsumed_ge(its1, tv, mcount as int, il)) by {
                assert forall|q: int, j: int| 0 <= q < mcount && its1[q].idx <= j < tv[q].len() implies (#[trigger] tv[q][j]).ilabel >= il by {
                    if q != pos {
                        assert(its1[q] == its0[q]);
                    }
                }
            }
            assert(marks_sound(fst, pn, cs, il)) by {
                assert forall|x: usize| (x as int) < fst.n() && #[trigger] pn.in_yes(x) implies tr_into(fst, x, il, cs) by {
                    if x != from_state {
                        assert(pm.in_yes(x));
                    } else {
                        assert(tv[pos as int][idx as int].nextstate == x);
                    }
                }
            }
            assert(marked_consumed(pn, its1, tv, mcount as int, il)) by {
                assert forall|q: int, j: int|
                    0 <= q < mcount && 0 <= j < its1[q].idx && (#[trigger] tv[q][j]).ilabel == il && pn.class_size(
                        pn.class_at(tv[q][j].nextstate),
                    ) > 1 implies pn.in_yes(tv[q][j].nextstate) by {
                    let x = tv[q][j].nextstate;
                    assert((x as int) < n);
                    assert(pm.class_at(x) == pn.class_at(x));
                    assert(pm.class_of(x as int) < pm.k()) by {
                        pm.lemma_wf();
                    }
                    assert(pn.class_size(pn.class_at(x)) == pm.class_size(pm.class_at(x)));
                    if q == pos && j == idx {
                        assert(big);
                    } else {
                        if q != pos {
                            assert(its1[q] == its0[q]);
                        }
                        assert(j < its0[q].idx);
                        assert(pm.in_yes(x));
                    }
                }
            }
            assert forall|l: usize| l < il implies #[trigger] stable_wrt(fst, pn, cs, l) by {
                assert(stable_wrt(fst, pm, cs, l));
                lemma_stable_wrt_refine(fst, pm, pn, cs, l);
            }
        }
    }
    proof {
        crate::collections::lemma_heap_empty(heap);
        assert forall|q: int| 0 <= q < mcount implies #[trigger] iters@[q].idx == tv[q].len() by {
            if iters@[q].idx < tv[q].len() {
                lemma_items_member_or_not(iters@, q, mcount as int);
                assert(heap_items(heap).contains(iter_item(iters@[q], q)));
            }
        }
    }
    let ghost pb = *partition;
    partition.finalize_split(queue);
    proof {
        lemma_finalize_finer(pb, *partition);
        let pa = *partition;
        assert(ids_kept(p0, pa, n)) by {
            assert forall|x: usize| (x as int) < n && #[trigger] pa.class_at(x) < p0.k() implies pa.class_at(x) == p0.class_at(x) by {
                assert(pb.class_of(x as int) < pb.k()) by {
                    pb.lemma_wf();
                }
                if pb.moves(x) {
                    assert(pa.class_of(x as int) >= pb.k());
                }
                assert(pa.class_of(x as int) == pb.class_of(x as int));
                assert(pb.class_at(x) < p0.k());
                assert(pb.class_at(x) == p0.class_at(x));
            }
        }
        assert(finer_than(pa, p0, n)) by {
            assert forall|x: usize, y: usize|
                (x as int) < n && (y as int) < n && #[trigger] pa.class_at(x) == #[trigger] pa.class_at(y) implies p0.class_at(x)
                == p0.class_at(y) by {
                assert(pb.class_at(x) == pb.class_at(y));
            }
        }
        assert forall|x: usize, y: usize|
            (x as int) < n && (y as int) < n && p0.class_at(x) == p0.class_at(y) && same_profile(fst, cs, x, y)
            implies #[trigger] pa.class_at(x) == #[trigger] pa.class_at(y) by {
            assert(pb.class_at(x) == pb.class_at(y));
            match prev_label {
                Some(l0) => {
                    if x != y {
                        lemma_class_two(pb, x, y);
                        assert(tr_into(fst, x, l0, cs) == tr_into(fst, y, l0, cs));
                        if tr_into(fst, x, l0, cs) {
                            let (q, j) = choose|q: int, j: int|
                                0 <= q < tv.len() && 0 <= j < tv[q].len() && (#[trigger] tv[q][j]).ilabel == l0 && tv[q][j].nextstate == x;
                            assert(iters@[q].idx == tv[q].len());
                            let (q2, j2) = choose|q: int, j: int|
                                0 <= q < tv.len() && 0 <= j < tv[q].len() && (#[trigger] tv[q][j]).ilabel == l0 && tv[q][j].nextstate == y;
                            assert(iters@[q2].idx == tv[q2].len());
                        }
                    }
                },
                None => {
                    lemma_settled_no_marks(pb);
                },
            }
            lemma_finalize_together(pb, pa, x, y);
        }
        assert forall|l: usize| #[trigger] stable_wrt(fst, pa, cs, l) by {
            match prev_label {
                Some(l0) => {
                    if l < l0 {
                        lemma_stable_wrt_refine(fst, pb, pa, cs, l);
                    } else if l == l0 {
                        assert forall|x: usize|
                            (x as int) < fst.n() && #[trigger] tr_into(fst, x, l0, cs) && pb.class_size(pb.class_at(x)) > 1 implies pb.in_yes(x) by {
                            let (q, j) = choose|q: int, j: int|
                                0 <= q < tv.len() && 0 <= j < tv[q].len() && (#[trigger] tv[q][j]).ilabel == l0 && tv[q][j].nextstate == x;
                            assert(iters@[q].idx == tv[q].len());
                        }
                        lemma_finalize_stable(fst, pb, pa, cs, l0);
                    } else {
                        assert forall|q: int, j: int| 0 <= q < tv.len() && 0 <= j < tv[q].len() implies (#[trigger] tv[q][j]).ilabel != l by {
                            assert(iters@[q].idx == tv[q].len());
                            assert(tv[q][j].ilabel <= l0);
                        }
                        lemma_no_entry_stable(fst, pa, cs, tv, l);
                    }
                },
                None => {
                    assert forall|q: int, j: int| 0 <= q < tv.len() && 0 <= j < tv[q].len() implies (#[trigger] tv[q][j]).ilabel != l by {
                        assert(iters@[q].idx == 0);
                        assert(iters@[q].idx == tv[q].len());
                    }
                    lemma_no_entry_stable(fst, pa, cs, tv, l);
                },
            }
        }
    }
}

} // verus!
