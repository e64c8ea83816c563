use vstd::prelude::*;

use crate::connect::connect;
use crate::connect::connect_result;
use crate::fst::Tr;
use crate::fst::VectorFst;
use crate::partition::Partition;

verus! {

/// The members of class `c`, in the order `Partition::iter` lists them.
pub open spec fn members_of(p: Partition, c: int) -> Seq<usize> {
    p.no_of(c) + p.yes_of(c)
}

/// The representative of class `c`: its first member.
pub open spec fn rep_of(p: Partition, c: int) -> usize {
    members_of(p, c)[0]
}

/// `t` with its destination replaced by the representative of its class.
pub open spec fn remap_tr(p: Partition, t: Tr) -> Tr {
    Tr { ilabel: t.ilabel, olabel: t.olabel, weight: t.weight, nextstate: rep_of(p, p.class_at(t.nextstate)) }
}

/// `trs` with every destination replaced by the representative of its class.
pub open spec fn remap_trs(p: Partition, trs: Seq<Tr>) -> Seq<Tr> {
    trs.map_values(|t: Tr| remap_tr(p, t))
}

/// The remapped transitions of the states `ms`, one state after the other.
pub open spec fn merged_trs(fst: &VectorFst, p: Partition, ms: Seq<usize>) -> Seq<Tr>
    decreases ms.len(),
{
    if ms.len() == 0 {
        Seq::empty()
    } else {
        merged_trs(fst, p, ms.drop_last()) + remap_trs(p, fst.trs_at(ms.last()))
    }
}

/// `m` is `f` with each class of `p` merged into its representative: the
/// representative takes the transitions of all the members of its class,
/// redirected to representatives, and the start state moves to the
/// representative of its class.  The other states keep their transitions.
pub open spec fn merged(f: &VectorFst, p: Partition, m: &VectorFst) -> bool {
    &&& m.n() == f.n()
    &&& m.start == Some(rep_of(p, p.class_at(f.start.unwrap())))
    &&& forall|s: usize| (s as int) < f.n() ==> #[trigger] m.final_at(s) == f.final_at(s)
    &&& forall|s: usize|
        (s as int) < f.n() ==> #[trigger] m.trs_at(s) == if s == rep_of(p, p.class_at(s)) {
            merged_trs(f, p, members_of(p, p.class_at(s)))
        } else {
            f.trs_at(s)
        }
}

/// The representative of a class is a member of it.
pub proof fn lemma_rep(p: Partition, c: int)
    requires
        p.wf(),
        p.nonempty() || members_of(p, c).len() > 0,
        0 <= c < p.k(),
    ensures
        members_of(p, c).len() > 0,
        (rep_of(p, c) as int) < p.len(),
        p.class_at(rep_of(p, c)) == c,
{
    p.lemma_wf();
    p.lemma_len_bound();
    if members_of(p, c).len() == 0 {
        assert(p.has_member(c));
        let e = choose|e: int| 0 <= e < p.len() && #[trigger] p.class_of(e) == c;
        assert(p.class_id_bound(e));
        assert(members_of(p, c).contains(e as usize));
    }
    assert(members_of(p, c).contains(members_of(p, c)[0]));
}

/// A state is a member of its class.
pub proof fn lemma_member(p: Partition, x: usize)
    requires
        p.wf(),
        (x as int) < p.len(),
    ensures
        0 <= p.class_at(x) < p.k(),
        members_of(p, p.class_at(x)).contains(x),
{
    p.lemma_wf();
}

/// The members of class `c` are the states of class `c`.
pub proof fn lemma_member_of(p: Partition, c: int, x: usize)
    requires
        p.wf(),
        0 <= c < p.k(),
        members_of(p, c).contains(x),
    ensures
        (x as int) < p.len(),
        p.class_at(x) == c,
{
    p.lemma_wf();
}

/// Merges each class of `partition` into its first member, then removes the
/// states that are no longer both accessible and coaccessible.
pub fn merge_states(partition: Partition, fst: &mut VectorFst)
    requires
        partition.wf(),
        partition.len() == old(fst).n(),
        old(fst).wf(),
        old(fst).start is Some,
    ensures
        final(fst).wf(),
        exists|m: VectorFst| merged(old(fst), partition, &m) && m.wf() && connect_result(m, *final(fst)),
{
    let ghost f0 = *fst;
    let ghost p = partition;
    let ghost n = f0.n();
    proof {
        p.lemma_wf();
    }
    let k = partition.num_classes();
    let mut state_map: Vec<usize> = Vec::new();
    let mut c: usize = 0;
    while c < k
        invariant
            k == p.k(),
            p == partition,
            p.wf(),
            c <= k,
            state_map@.len() == c,
            forall|d: int| 0 <= d < c && members_of(p, d).len() > 0 ==> #[trigger] state_map@[d] == rep_of(p, d),
        decreases k - c,
    {
        let ms = partition.iter(c);
        if ms.len() > 0 {
            state_map.push(ms[0]);
        } else {
            state_map.push(0);
        }
        c = c + 1;
    }
    let mut c: usize = 0;
    while c < k
        invariant
            k == p.k(),
            p == partition,
            p.wf(),
            p.len() == n,
            n == f0.n(),
            f0.wf(),
            c <= k,
            state_map@.len() == k,
            forall|d: int| 0 <= d < k && members_of(p, d).len() > 0 ==> #[trigger] state_map@[d] == rep_of(p, d),
            fst.n() == n,
            fst.start == f0.start,
            forall|s: usize| (s as int) < n ==> #[trigger] fst.final_at(s) == f0.final_at(s),
            forall|s: usize|
                (s as int) < n ==> #[trigger] fst.trs_at(s) == if s == rep_of(p, p.class_at(s)) && p.class_at(s) < c {
                    merged_trs(&f0, p, members_of(p, p.class_at(s)))
                } else {
                    f0.trs_at(s)
                },
        decreases k - c,
    {
        let ms = partition.iter(c);
        if ms.len() == 0 {
            proof {
                p.lemma_wf();
                assert forall|s: usize| (s as int) < n implies #[trigger] fst.trs_at(s) == if s == rep_of(p, p.class_at(s))
                    && p.class_at(s) < c + 1 {
                    merged_trs(&f0, p, members_of(p, p.class_at(s)))
                } else {
                    f0.trs_at(s)
                } by {
                    if p.class_at(s) == c {
                        assert(members_of(p, c as int).contains(s));
                    }
                }
            }
            c = c + 1;
            continue;
        }
        proof {
            lemma_rep(p, c as int);
        }
        let rep = state_map[c];
        let mut acc: Vec<Tr> = Vec::new();
        let mut j: usize = 0;
        proof {
            assert(ms@.take(0) =~= Seq::<usize>::empty());
        }
        while j < ms.len()
            invariant
                k == p.k(),
                p == partition,
                p.wf(),
                p.len() == n,
                n == f0.n(),
                f0.wf(),
                (c as int) < k,
                ms@ == members_of(p, c as int),
                j <= ms@.len(),
                state_map@.len() == k,
                forall|d: int| 0 <= d < k && members_of(p, d).len() > 0 ==> #[trigger] state_map@[d] == rep_of(p, d),
                fst.n() == n,
                forall|s: usize|
                    (s as int) < n && p.class_at(s) == c ==> #[trigger] fst.trs_at(s) == f0.trs_at(s),
                acc@ == merged_trs(&f0, p, ms@.take(j as int)),
            decreases ms@.len() - j,
        {
            let s = ms[j];
            proof {
                p.lemma_wf();
                assert(ms@.contains(s));
            }
            let trs = fst.get_trs(s);
            let ghost base = acc@;
            let mut i: usize = 0;
            proof {
                assert(fst.trs_at(s) == f0.trs_at(s));
                assert(remap_trs(p, trs@.take(0)) =~= Seq::<Tr>::empty());
                assert(acc@ =~= base + remap_trs(p, trs@.take(0)));
            }
            while i < trs.len()
                invariant
                    k == p.k(),
                    p == partition,
                    p.wf(),
                    p.len() == n,
                    n == f0.n(),
                    f0.wf(),
                    (s as int) < n,
                    trs@ == f0.trs_at(s),
                    i <= trs@.len(),
                    state_map@.len() == k,
                    forall|d: int| 0 <= d < k && members_of(p, d).len() > 0 ==> #[trigger] state_map@[d] == rep_of(p, d),
                    acc@ == base + remap_trs(p, trs@.take(i as int)),
                decreases trs@.len() - i,
            {
                let t = trs[i];
                proof {
                    assert(f0.trs_at(s)[i as int] == t);
                    assert((t.nextstate as int) < n);
                    p.lemma_wf();
                    assert(p.class_id_bound(t.nextstate as int));
                }
                proof {
                    lemma_member(p, t.nextstate);
                }
                let d = partition.get_class_id(t.nextstate);
                acc.push(Tr { ilabel: t.ilabel, olabel: t.olabel, weight: t.weight, nextstate: state_map[d] });
                proof {
                    assert(trs@.take(i + 1) =~= trs@.take(i as int).push(t));
                    assert(remap_trs(p, trs@.take(i + 1)) =~= remap_trs(p, trs@.take(i as int)).push(remap_tr(p, t)));
                    assert(acc@ =~= base + remap_trs(p, trs@.take(i + 1)));
                }
                i = i + 1;
            }
            proof {
                assert(trs@.take(trs@.len() as int) =~= trs@);
                assert(ms@.take(j + 1).drop_last() =~= ms@.take(j as int));
                assert(ms@.take(j + 1).last() == s);
            }
            j = j + 1;
        }
        proof {
            assert(ms@.take(ms@.len() as int) =~= ms@);
        }
        let ghost fb = *fst;
        fst.set_trs(rep, acc);
        proof {
            assert forall|s: usize| (s as int) < n implies #[trigger] fst.trs_at(s) == if s == rep_of(p, p.class_at(s))
                && p.class_at(s) < c + 1 {
                merged_trs(&f0, p, members_of(p, p.class_at(s)))
            } else {
                f0.trs_at(s)
            } by {
                if s != rep {
                    assert(fst.trs_at(s) == fb.trs_at(s));
                    if s == rep_of(p, p.class_at(s)) && p.class_at(s) == c {
                        assert(rep == rep_of(p, c as int));
                    }
                }
            }
            assert forall|s: usize| (s as int) < n implies #[trigger] fst.final_at(s) == f0.final_at(s) by {
                if s != rep {
                    assert(fst.final_at(s) == fb.final_at(s));
                }
            }
        }
        c = c + 1;
    }
    let st = match fst.start {
        Some(s) => s,
        None => 0,
    };
    proof {
        p.lemma_wf();
        assert(p.class_id_bound(st as int));
    }
    let cs = partition.get_class_id(st);
    proof {
        lemma_member(p, st);
        lemma_rep(p, cs as int);
    }
    let ghost fb2 = *fst;
    fst.set_start(state_map[cs]);
    let ghost m = *fst;
    proof {
        assert forall|s: usize| (s as int) < n implies #[trigger] m.trs_at(s) == if s == rep_of(p, p.class_at(s)) {
            merged_trs(&f0, p, members_of(p, p.class_at(s)))
        } else {
            f0.trs_at(s)
        } by {
            assert(p.class_id_bound(s as int));
            assert(m.trs_at(s) == fb2.trs_at(s));
        }
        assert forall|s: usize| (s as int) < n implies #[trigger] m.final_at(s) == f0.final_at(s) by {
            assert(m.final_at(s) == fb2.final_at(s));
        }
        assert(merged(&f0, p, &m));
        assert forall|s: int, i: int| 0 <= s < m.n() && 0 <= i < m.trs_of(s).len() implies (#[trigger] m.trs_of(s)[i]).nextstate
            < m.n() by {
            lemma_merged_targets(&f0, p, &m, s, i);
        }
    }
    connect(fst);
    proof {
        assert(merged(&f0, p, &m) && m.wf() && connect_result(m, *fst));
    }
}

/// The transitions of the merged fst lead to states.
proof fn lemma_merged_targets(f: &VectorFst, p: Partition, m: &VectorFst, s: int, i: int)
    requires
        f.wf(),
        p.wf(),
        p.len() == f.n(),
        merged(f, p, m),
        0 <= s < m.n(),
        0 <= i < m.trs_of(s).len(),
    ensures
        m.trs_of(s)[i].nextstate < m.n(),
{
    f.lemma_n_bound();
    let su = s as usize;
    assert(su as int == s);
    if su == rep_of(p, p.class_at(su)) {
        p.lemma_wf();
        assert(p.class_id_bound(s));
        let ms = members_of(p, p.class_at(su));
        assert forall|j: int| 0 <= j < ms.len() implies (#[trigger] ms[j] as int) < f.n() by {
            assert(ms.contains(ms[j]));
        }
        lemma_merged_trs_targets(f, p, ms);
        assert(m.trs_at(su) == merged_trs(f, p, members_of(p, p.class_at(su))));
    } else {
        assert(m.trs_at(su) == f.trs_at(su));
    }
}

/// The merged transitions lead to representatives, which are states.
proof fn lemma_merged_trs_targets(f: &VectorFst, p: Partition, ms: Seq<usize>)
    requires
        f.wf(),
        p.wf(),
        p.len() == f.n(),
        forall|j: int| 0 <= j < ms.len() ==> (#[trigger] ms[j] as int) < f.n(),
    ensures
        forall|i: int| 0 <= i < merged_trs(f, p, ms).len() ==> (#[trigger] merged_trs(f, p, ms)[i]).nextstate < f.n(),
    decreases ms.len(),
{
    if ms.len() > 0 {
        lemma_merged_trs_targets(f, p, ms.drop_last());
        let a = merged_trs(f, p, ms.drop_last());
        let b = remap_trs(p, f.trs_at(ms.last()));
        assert forall|i: int| 0 <= i < (a + b).len() implies (#[trigger] (a + b)[i]).nextstate < f.n() by {
            if i < a.len() {
                assert((a + b)[i] == a[i]);
            } else {
                let t = f.trs_at(ms.last())[i - a.len()];
                assert((a + b)[i] == remap_tr(p, t));
                assert((t.nextstate as int) < f.n());
                p.lemma_wf();
                assert(p.class_id_bound(t.nextstate as int));
                lemma_member(p, t.nextstate);
                lemma_rep(p, p.class_at(t.nextstate));
            }
        }
    }
}

} // verus!
