use vstd::prelude::*;

use std::collections::HashSet;

use crate::collections::signature_map_contents;
use crate::collections::signature_map_get;
use crate::collections::signature_map_insert;
use crate::collections::signature_map_new;
use crate::depth::depth_search_state;
use crate::depth::fst_depth;
use crate::depth::height_at;
use crate::depth::settled_height;
use crate::depth::succ_height;
use crate::fst::Tr;
use crate::fst::VectorFst;
use crate::fst::WEIGHT_ZERO;
use crate::graph::edge;
use crate::graph::is_walk;
use crate::graph::lemma_closed_walk;
use crate::comparator::final_code;
use crate::partition::seq_holds;
use crate::partition::Partition;

verus! {

broadcast use vstd::std_specs::hash::group_hash_axioms;

/// The input labels and destination classes of `trs`, in order, as pairs.
pub open spec fn trs_sig(p: Partition, trs: Seq<Tr>) -> Seq<u64>
    decreases trs.len(),
{
    if trs.len() == 0 {
        Seq::empty()
    } else {
        trs_sig(p, trs.drop_last()) + seq![
            trs.last().ilabel as u64,
            p.class_at(trs.last().nextstate) as u64,
        ]
    }
}

/// The signature of state `x` under partition `p`: its final weight, its
/// number of transitions, then the input label and destination class of
/// each transition.  Two states have equal signatures exactly when
/// `StateComparator` finds neither before the other.
pub open spec fn state_sig(fst: &VectorFst, p: Partition, x: usize) -> Seq<u64> {
    seq![final_code(fst, x), fst.trs_at(x).len() as u64] + trs_sig(p, fst.trs_at(x))
}

/// The positions of `trs_sig`.
pub proof fn lemma_trs_sig_index(p: Partition, t: Seq<Tr>, i: int)
    requires
        0 <= i < t.len(),
        forall|j: int| 0 <= j < t.len() ==> 0 <= p.class_at((#[trigger] t[j]).nextstate) <= u64::MAX,
    ensures
        trs_sig(p, t).len() == 2 * t.len(),
        trs_sig(p, t)[2 * i] == t[i].ilabel as u64,
        trs_sig(p, t)[2 * i + 1] == p.class_at(t[i].nextstate) as u64,
    decreases t.len(),
{
    lemma_trs_sig_len(p, t);
    if i < t.len() - 1 {
        let u = t.drop_last();
        assert forall|j: int| 0 <= j < u.len() implies 0 <= p.class_at((#[trigger] u[j]).nextstate) <= u64::MAX by {
            assert(u[j] == t[j]);
        }
        lemma_trs_sig_index(p, u, i);
        assert(u[i] == t[i]);
    }
}

/// `trs_sig` holds two entries per transition.
pub proof fn lemma_trs_sig_len(p: Partition, t: Seq<Tr>)
    ensures
        trs_sig(p, t).len() == 2 * t.len(),
    decreases t.len(),
{
    if t.len() > 0 {
        lemma_trs_sig_len(p, t.drop_last());
    }
}

/// Equal signatures: equal final weights, equal numbers of transitions,
/// and pairwise equal input labels and destination classes.
pub proof fn lemma_state_sig_eq(fst: &VectorFst, p: Partition, x: usize, y: usize)
    requires
        fst.wf(),
        p.wf(),
        p.len() == fst.n(),
        fst.has_state(x),
        fst.has_state(y),
    ensures
        (state_sig(fst, p, x) == state_sig(fst, p, y)) <==> {
            &&& final_code(fst, x) == final_code(fst, y)
            &&& fst.trs_at(x).len() == fst.trs_at(y).len()
            &&& forall|i: int|
                0 <= i < fst.trs_at(x).len() ==> (#[trigger] fst.trs_at(x)[i]).ilabel == fst.trs_at(
                    y,
                )[i].ilabel && p.class_at(fst.trs_at(x)[i].nextstate) == p.class_at(
                    fst.trs_at(y)[i].nextstate,
                )
        },
{
    let tx = fst.trs_at(x);
    let ty = fst.trs_at(y);
    p.lemma_wf();
    assert forall|j: int| 0 <= j < tx.len() implies 0 <= p.class_at((#[trigger] tx[j]).nextstate) <= u64::MAX by {
        assert((tx[j].nextstate as int) < fst.n());
        p.lemma_class_usize(tx[j].nextstate);
    }
    assert forall|j: int| 0 <= j < ty.len() implies 0 <= p.class_at((#[trigger] ty[j]).nextstate) <= u64::MAX by {
        assert((ty[j].nextstate as int) < fst.n());
        p.lemma_class_usize(ty[j].nextstate);
    }
    lemma_trs_sig_len(p, tx);
    lemma_trs_sig_len(p, ty);
    let sx = state_sig(fst, p, x);
    let sy = state_sig(fst, p, y);
    assert(tx.len() == fst.states@[x as int].trs.len());
    assert(ty.len() == fst.states@[y as int].trs.len());
    if sx == sy {
        assert(sx[0] == sy[0]);
        assert(sx[1] == sy[1]);
        assert(tx.len() == ty.len());
        assert forall|i: int| 0 <= i < tx.len() implies (#[trigger] tx[i]).ilabel == ty[i].ilabel
            && p.class_at(tx[i].nextstate) == p.class_at(ty[i].nextstate) by {
            lemma_trs_sig_index(p, tx, i);
            lemma_trs_sig_index(p, ty, i);
            assert(sx[2 + 2 * i] == sy[2 + 2 * i]);
            assert(sx[2 + 2 * i + 1] == sy[2 + 2 * i + 1]);
        }
    }
    if final_code(fst, x) == final_code(fst, y) && tx.len() == ty.len() && (forall|i: int|
        0 <= i < tx.len() ==> (#[trigger] tx[i]).ilabel == ty[i].ilabel && p.class_at(tx[i].nextstate)
            == p.class_at(ty[i].nextstate)) {
        assert forall|k: int| 0 <= k < sx.len() implies sx[k] == sy[k] by {
            if k >= 2 {
                let i = (k - 2) / 2;
                lemma_trs_sig_index(p, tx, i);
                lemma_trs_sig_index(p, ty, i);
            }
        }
        assert(sx =~= sy);
    }
}

/// Two partitions that agree on the classes of the destinations of `x`
/// give `x` the same signature.
pub proof fn lemma_state_sig_frame(fst: &VectorFst, p: Partition, q: Partition, x: usize)
    requires
        forall|i: int|
            0 <= i < fst.trs_at(x).len() ==> p.class_at((#[trigger] fst.trs_at(x)[i]).nextstate)
                == q.class_at(fst.trs_at(x)[i].nextstate),
    ensures
        state_sig(fst, p, x) == state_sig(fst, q, x),
{
    lemma_trs_sig_frame(p, q, fst.trs_at(x));
}

/// `trs_sig` depends on the classes of the destinations only.
pub proof fn lemma_trs_sig_frame(p: Partition, q: Partition, t: Seq<Tr>)
    requires
        forall|i: int| 0 <= i < t.len() ==> p.class_at((#[trigger] t[i]).nextstate) == q.class_at(t[i].nextstate),
    ensures
        trs_sig(p, t) == trs_sig(q, t),
    decreases t.len(),
{
    if t.len() > 0 {
        let u = t.drop_last();
        assert forall|i: int| 0 <= i < u.len() implies p.class_at((#[trigger] u[i]).nextstate) == q.class_at(u[i].nextstate) by {
            assert(u[i] == t[i]);
        }
        lemma_trs_sig_frame(p, q, u);
        assert(t.last() == t[t.len() - 1]);
    }
}

/// The signature of state `x` under partition `p`.
pub fn state_signature(fst: &VectorFst, p: &Partition, x: usize) -> (r: Vec<u64>)
    requires
        fst.wf(),
        p.wf(),
        p.len() == fst.n(),
        fst.has_state(x),
    ensures
        r@ == state_sig(fst, *p, x),
{
    let fc = match fst.final_weight(x) {
        Some(w) => w,
        None => WEIGHT_ZERO,
    };
    let trs = fst.get_trs(x);
    let mut r: Vec<u64> = Vec::new();
    r.push(fc);
    r.push(trs.len() as u64);
    let ghost head = seq![fc, trs@.len() as u64];
    let mut i: usize = 0;
    proof {
        assert(r@ =~= head + trs_sig(*p, trs@.take(0)));
    }
    while i < trs.len()
        invariant
            fst.wf(),
            p.wf(),
            p.len() == fst.n(),
            fst.has_state(x),
            trs@ == fst.trs_at(x),
            i <= trs@.len(),
            r@ == head + trs_sig(*p, trs@.take(i as int)),
        decreases trs@.len() - i,
    {
        let t = trs[i];
        proof {
            assert(trs@[i as int] == fst.trs_at(x)[i as int]);
            assert((t.nextstate as int) < fst.n());
        }
        let c = p.get_class_id(t.nextstate);
        r.push(t.ilabel as u64);
        r.push(c as u64);
        proof {
            assert(trs@.take(i + 1).drop_last() =~= trs@.take(i as int));
            assert(trs@.take(i + 1).last() == t);
            assert(r@ =~= head + trs_sig(*p, trs@.take(i + 1)));
        }
        i = i + 1;
    }
    proof {
        assert(trs@.take(trs@.len() as int) =~= trs@);
    }
    r
}

/// A copy of a vector of `u64`.
fn copy_u64s(v: &Vec<u64>) -> (r: Vec<u64>)
    ensures
        r@ == v@,
{
    let mut r: Vec<u64> = Vec::new();
    let mut i: usize = 0;
    while i < v.len()
        invariant
            i <= v@.len(),
            r@ == v@.take(i as int),
        decreases v@.len() - i,
    {
        r.push(v[i]);
        i = i + 1;
        proof {
            assert(r@ =~= v@.take(i as int));
        }
    }
    proof {
        assert(v@.take(v@.len() as int) =~= v@);
    }
    r
}

/// `hs` gives every state of `fst` its height: one more than the largest
/// height of its destinations, 0 for a state without transitions.
pub open spec fn heights_of(fst: &VectorFst, hs: Seq<i32>) -> bool {
    &&& hs.len() == fst.n()
    &&& forall|x: usize| (x as int) < fst.n() ==> 0 <= #[trigger] height_at(hs, x) < fst.n()
    &&& forall|x: usize|
        (x as int) < fst.n() ==> #[trigger] height_at(hs, x) == succ_height(
            hs,
            fst.trs_at(x),
            fst.trs_at(x).len() as int,
        )
}

/// The classes of `p` are the heights `hs`.
pub open spec fn height_partition(fst: &VectorFst, p: Partition, hs: Seq<i32>) -> bool {
    &&& fst.wf()
    &&& heights_of(fst, hs)
    &&& p.wf()
    &&& p.settled()
    &&& p.nonempty()
    &&& p.len() == fst.n()
    &&& forall|x: usize| (x as int) < fst.n() ==> #[trigger] p.class_at(x) == height_at(hs, x)
}

/// The classes of `p` split the states exactly by signature: two states
/// share a class if and only if they have the same signature under `p`.
pub open spec fn sig_congruence(fst: &VectorFst, p: Partition) -> bool {
    forall|x: usize, y: usize|
        #![trigger state_sig(fst, p, x), state_sig(fst, p, y)]
        #![trigger p.class_at(x), p.class_at(y)]
        (x as int) < fst.n() && (y as int) < fst.n() ==> (p.class_at(x) == p.class_at(y) <==> state_sig(
            fst,
            p,
            x,
        ) == state_sig(fst, p, y))
}

/// The states of height below `h0` have been split by signature; the others
/// are still in the class named by their height, below `big_h`.
pub open spec fn refined_below(fst: &VectorFst, p: Partition, hs: Seq<i32>, h0: int, big_h: int) -> bool {
    &&& p.wf()
    &&& p.settled()
    &&& p.nonempty()
    &&& p.len() == fst.n()
    &&& p.k() >= big_h
    &&& forall|x: usize|
        (x as int) < fst.n() && height_at(hs, x) >= h0 ==> #[trigger] p.class_at(x) == height_at(hs, x)
    &&& forall|x: usize|
        (x as int) < fst.n() && height_at(hs, x) < h0 ==> (#[trigger] p.class_at(x) < h0 || p.class_at(x)
            >= big_h)
    &&& forall|x: usize, y: usize|
        (x as int) < fst.n() && (y as int) < fst.n() && #[trigger] p.class_at(x) == #[trigger] p.class_at(y)
            ==> height_at(hs, x) == height_at(hs, y)
    &&& forall|x: usize, y: usize|
        #![trigger state_sig(fst, p, x), state_sig(fst, p, y)]
        (x as int) < fst.n() && (y as int) < fst.n() && height_at(hs, x) < h0 && height_at(hs, y) < h0
            ==> (p.class_at(x) == p.class_at(y) <==> state_sig(fst, p, x) == state_sig(fst, p, y))
}

/// `succ_height` only looks at the heights of the destinations, position
/// by position.
pub proof fn lemma_succ_height_pairwise(h: Seq<i32>, t1: Seq<Tr>, t2: Seq<Tr>, m: int)
    requires
        forall|j: int|
            0 <= j < m ==> height_at(h, (#[trigger] t1[j]).nextstate) == height_at(h, t2[j].nextstate),
    ensures
        succ_height(h, t1, m) == succ_height(h, t2, m),
    decreases m,
{
    if m > 0 {
        lemma_succ_height_pairwise(h, t1, t2, m - 1);
    }
}

/// Every destination of a state is lower than the state.
pub proof fn lemma_height_drops(fst: &VectorFst, hs: Seq<i32>, x: usize, i: int)
    requires
        heights_of(fst, hs),
        fst.wf(),
        (x as int) < fst.n(),
        0 <= i < fst.trs_at(x).len(),
    ensures
        height_at(hs, fst.trs_at(x)[i].nextstate) < height_at(hs, x),
{
    crate::properties::lemma_succ_height_ge(hs, fst.trs_at(x), fst.trs_at(x).len() as int, i);
}

/// When states in a common class have a common height, states with a common
/// signature have a common height.
pub proof fn lemma_sig_height(fst: &VectorFst, p: Partition, hs: Seq<i32>, x: usize, y: usize)
    requires
        fst.wf(),
        heights_of(fst, hs),
        p.wf(),
        p.len() == fst.n(),
        (x as int) < fst.n(),
        (y as int) < fst.n(),
        forall|a: usize, b: usize|
            (a as int) < fst.n() && (b as int) < fst.n() && #[trigger] p.class_at(a) == #[trigger] p.class_at(b)
                ==> height_at(hs, a) == height_at(hs, b),
        state_sig(fst, p, x) == state_sig(fst, p, y),
    ensures
        height_at(hs, x) == height_at(hs, y),
{
    lemma_state_sig_eq(fst, p, x, y);
    let tx = fst.trs_at(x);
    let ty = fst.trs_at(y);
    assert forall|j: int| 0 <= j < tx.len() implies height_at(hs, (#[trigger] tx[j]).nextstate) == height_at(hs, ty[j].nextstate) by {
        assert(p.class_at(tx[j].nextstate) == p.class_at(ty[j].nextstate));
        assert((tx[j].nextstate as int) < fst.n());
        assert((ty[j].nextstate as int) < fst.n());
    }
    lemma_succ_height_pairwise(hs, tx, ty, tx.len() as int);
}

/// Below the height of a state, every height is the height of some state.
pub proof fn lemma_heights_contiguous(fst: &VectorFst, hs: Seq<i32>, x: usize, c: int)
    requires
        fst.wf(),
        heights_of(fst, hs),
        (x as int) < fst.n(),
        0 <= c <= height_at(hs, x),
    ensures
        exists|y: usize| (y as int) < fst.n() && height_at(hs, y) == c,
    decreases height_at(hs, x) - c,
{
    if height_at(hs, x) > c {
        let t = fst.trs_at(x);
        let j = lemma_succ_height_witness(hs, t, t.len() as int);
        let y = t[j].nextstate;
        assert((y as int) < fst.n());
        lemma_height_drops(fst, hs, x, j);
        lemma_heights_contiguous(fst, hs, y, c);
    }
}

/// A positive `succ_height` is reached at some transition.
pub proof fn lemma_succ_height_witness(h: Seq<i32>, t: Seq<Tr>, m: int) -> (j: int)
    requires
        succ_height(h, t, m) > 0,
    ensures
        0 <= j < m,
        succ_height(h, t, m) == 1 + height_at(h, t[j].nextstate),
    decreases m,
{
    if m <= 0 {
        0
    } else if succ_height(h, t, m - 1) > 0 && succ_height(h, t, m) == succ_height(h, t, m - 1) {
        lemma_succ_height_witness(h, t, m - 1)
    } else {
        m - 1
    }
}

/// Some member of class `h0` of `p0` lies in class `c` of `p3`.
pub open spec fn moved_into(fst: &VectorFst, p0: Partition, p3: Partition, h0: int, c: int) -> bool {
    exists|x: usize| (x as int) < fst.n() && p0.class_at(x) == h0 && #[trigger] p3.class_at(x) == c
}

/// One round of refinement: the states of height `h0` (the members of
/// class `h0`) are regrouped by signature, through the map `m` from
/// signatures to classes.
pub proof fn lemma_refine_step(
    fst: &VectorFst,
    hs: Seq<i32>,
    p0: Partition,
    p3: Partition,
    m: Map<Seq<u64>, usize>,
    h0: int,
    big_h: int,
)
    requires
        fst.wf(),
        heights_of(fst, hs),
        refined_below(fst, p0, hs, h0, big_h),
        0 <= h0 < big_h,
        p3.wf(),
        p3.settled(),
        p3.len() == fst.n(),
        p3.k() >= p0.k(),
        forall|x: usize|
            (x as int) < fst.n() && p0.class_at(x) != h0 ==> #[trigger] p3.class_at(x) == p0.class_at(x),
        forall|x: usize|
            (x as int) < fst.n() && #[trigger] p0.class_at(x) == h0 ==> m.dom().contains(state_sig(fst, p0, x))
                && p3.class_at(x) == m[state_sig(fst, p0, x)],
        exists|x: usize| (x as int) < fst.n() && p0.class_at(x) == h0 && #[trigger] p3.class_at(x) == h0,
        forall|key: Seq<u64>|
            #[trigger] m.dom().contains(key) ==> m[key] == h0 || (p0.k() <= m[key] < p3.k()),
        forall|a: Seq<u64>, b: Seq<u64>|
            m.dom().contains(a) && m.dom().contains(b) && #[trigger] m[a] == #[trigger] m[b] ==> a == b,
        forall|c: int| p0.k() <= c < p3.k() ==> #[trigger] moved_into(fst, p0, p3, h0, c),
    ensures
        refined_below(fst, p3, hs, h0 + 1, big_h),
{
    let n = fst.n();
    assert(n == fst.states.len());
    p0.lemma_wf();
    p3.lemma_wf();
    // The members of class h0 are the states of height h0.
    assert forall|x: usize| (x as int) < n implies (p0.class_at(x) == h0 <==> height_at(hs, x) == h0) by {
        if height_at(hs, x) >= h0 {
            assert(p0.class_at(x) == height_at(hs, x));
        } else {
            assert(p0.class_at(x) < h0 || p0.class_at(x) >= big_h);
        }
    }
    // A state of height at most h0 keeps its signature.
    assert forall|z: usize| (z as int) < n && height_at(hs, z) <= h0 implies #[trigger] state_sig(fst, p3, z)
        == state_sig(fst, p0, z) by {
        assert forall|i: int| 0 <= i < fst.trs_at(z).len() implies p3.class_at(
            (#[trigger] fst.trs_at(z)[i]).nextstate,
        ) == p0.class_at(fst.trs_at(z)[i].nextstate) by {
            let t = fst.trs_at(z)[i].nextstate;
            assert((t as int) < n);
            lemma_height_drops(fst, hs, z, i);
            assert(p0.class_at(t) != h0);
        }
        lemma_state_sig_frame(fst, p3, p0, z);
    }
    // Classes of the members: h0 or new.
    assert forall|x: usize| (x as int) < n && p0.class_at(x) == h0 implies (#[trigger] p3.class_at(x) == h0
        || (p0.k() <= p3.class_at(x) < p3.k())) by {
        assert(p3.class_at(x) == m[state_sig(fst, p0, x)]);
        assert(m.dom().contains(state_sig(fst, p0, x)));
    }
    // Classes of the others: old, not h0.
    assert forall|x: usize| (x as int) < n && p0.class_at(x) != h0 implies (#[trigger] p3.class_at(x) != h0
        && p3.class_at(x) < p0.k()) by {
        assert(p0.class_of(x as int) < p0.k());
    }
    // Nonempty.
    assert forall|c: int| 0 <= c < p3.k() implies #[trigger] p3.has_member(c) by {
        if c < p0.k() {
            if c == h0 {
                let x = choose|x: usize| (x as int) < n && p0.class_at(x) == h0 && #[trigger] p3.class_at(x) == h0;
                assert(p3.class_of(x as int) == c);
            } else {
                assert(p0.has_member(c));
                let e = choose|e: int| 0 <= e < p0.len() && #[trigger] p0.class_of(e) == c;
                assert(p0.class_at(e as usize) == c);
                assert(p3.class_at(e as usize) == c);
                assert(p3.class_of(e) == c);
            }
        } else {
            assert(moved_into(fst, p0, p3, h0, c));
            let x = choose|x: usize| (x as int) < n && p0.class_at(x) == h0 && #[trigger] p3.class_at(x) == c;
            assert(p3.class_of(x as int) == c);
        }
    }
    assert(p3.nonempty());
    // States above h0 keep their class.
    assert forall|x: usize| (x as int) < n && height_at(hs, x) >= h0 + 1 implies #[trigger] p3.class_at(x)
        == height_at(hs, x) by {
        assert(p0.class_at(x) == height_at(hs, x));
    }
    // States up to h0 have a class below h0 + 1 or a new one.
    assert forall|x: usize| (x as int) < n && height_at(hs, x) < h0 + 1 implies (#[trigger] p3.class_at(x)
        < h0 + 1 || p3.class_at(x) >= big_h) by {
        if height_at(hs, x) < h0 {
            assert(p0.class_at(x) != h0);
            assert(p0.class_at(x) < h0 || p0.class_at(x) >= big_h);
        } else {
            assert(p0.class_at(x) == h0);
        }
    }
    // A common class means a common height.
    assert forall|x: usize, y: usize|
        (x as int) < n && (y as int) < n && #[trigger] p3.class_at(x) == #[trigger] p3.class_at(y) implies height_at(
        hs,
        x,
    ) == height_at(hs, y) by {
        if p0.class_at(x) == h0 && p0.class_at(y) == h0 {
        } else if p0.class_at(x) != h0 && p0.class_at(y) != h0 {
            assert(p0.class_at(x) == p0.class_at(y));
        } else if p0.class_at(x) == h0 {
            assert(p3.class_at(y) != h0 && p3.class_at(y) < p0.k());
        } else {
            assert(p3.class_at(x) != h0 && p3.class_at(x) < p0.k());
        }
    }
    // States up to h0 share a class exactly when they share a signature.
    assert forall|x: usize, y: usize|
        (x as int) < n && (y as int) < n && height_at(hs, x) < h0 + 1 && height_at(hs, y) < h0 + 1 implies (
    p3.class_at(x) == p3.class_at(y) <==> #[trigger] state_sig(fst, p3, x) == #[trigger] state_sig(fst, p3, y)) by {
        assert(state_sig(fst, p3, x) == state_sig(fst, p0, x));
        assert(state_sig(fst, p3, y) == state_sig(fst, p0, y));
        if height_at(hs, x) < h0 && height_at(hs, y) < h0 {
            assert(p0.class_at(x) != h0 && p0.class_at(y) != h0);
            assert(state_sig(fst, p0, x) == state_sig(fst, p0, y) <==> p0.class_at(x) == p0.class_at(y));
        } else if height_at(hs, x) == h0 && height_at(hs, y) == h0 {
            assert(p0.class_at(x) == h0 && p0.class_at(y) == h0);
            assert(p3.class_at(x) == m[state_sig(fst, p0, x)]);
            assert(p3.class_at(y) == m[state_sig(fst, p0, y)]);
            assert(m.dom().contains(state_sig(fst, p0, x)));
            assert(m.dom().contains(state_sig(fst, p0, y)));
        } else {
            assert(p3.class_at(x) != p3.class_at(y)) by {
                if p3.class_at(x) == p3.class_at(y) {
                    assert(height_at(hs, x) == height_at(hs, y));
                }
            }
            if state_sig(fst, p3, x) == state_sig(fst, p3, y) {
                lemma_sig_height(fst, p3, hs, x, y);
            }
        }
    }
}

/// Some member among the first `i` lands in class `c`.
pub open spec fn class_from_member(m: Map<Seq<u64>, usize>, sv: Seq<Seq<u64>>, i: int, c: int) -> bool {
    exists|j: int| 0 <= j < i && #[trigger] m[sv[j]] == c
}

/// Some member among the first `i` has signature `key`.
pub open spec fn key_from_member(sv: Seq<Seq<u64>>, i: int, key: Seq<u64>) -> bool {
    exists|j: int| 0 <= j < i && #[trigger] sv[j] == key
}

/// Acyclic minimization: the states are first grouped by height, then the
/// states of each height, lowest first, are split by signature.
pub struct AcyclicMinimizer {
    pub partition: Partition,
}

impl AcyclicMinimizer {
    /// Splits the class of the states of height `h` by signature.
    fn refine_height(&mut self, fst: &VectorFst, h: usize, Ghost(hs): Ghost<Seq<i32>>, Ghost(big_h): Ghost<int>)
        requires
            fst.wf(),
            heights_of(fst, hs),
            refined_below(fst, old(self).partition, hs, h as int, big_h),
            (h as int) < big_h,
        ensures
            refined_below(fst, final(self).partition, hs, h + 1, big_h),
    {
        let ghost p0 = self.partition;
        let ghost n = fst.n();
        proof {
            p0.lemma_wf();
        }
        let members = self.partition.iter(h);
        let m = members.len();
        proof {
            assert forall|j: int| 0 <= j < m implies (#[trigger] members@[j] as int) < n && p0.class_at(members@[j]) == h by {
                assert(members@.contains(members@[j]));
            }
            assert(p0.has_member(h as int));
            let e = choose|e: int| 0 <= e < p0.len() && #[trigger] p0.class_of(e) == h;
            assert(n == fst.states.len());
            assert(members@.contains(e as usize));
        }
        let mut sigs: Vec<Vec<u64>> = Vec::new();
        let mut i: usize = 0;
        while i < m
            invariant
                fst.wf(),
                p0.wf(),
                p0.len() == n,
                n == fst.n(),
                self.partition == p0,
                members@.len() == m,
                i <= m,
                sigs@.len() == i,
                forall|j: int| 0 <= j < m ==> (#[trigger] members@[j] as int) < n && p0.class_at(members@[j]) == h,
                forall|j: int| 0 <= j < i ==> (#[trigger] sigs@[j])@ == state_sig(fst, p0, members@[j]),
            decreases m - i,
        {
            let sg = state_signature(fst, &self.partition, members[i]);
            sigs.push(sg);
            i = i + 1;
        }
        let ghost sv = Seq::new(m as nat, |j: int| sigs@[j]@);
        proof {
            assert forall|j: int| 0 <= j < m implies #[trigger] sv[j] == state_sig(fst, p0, members@[j]) by {
                assert(sigs@[j]@ == state_sig(fst, p0, members@[j]));
            }
        }
        let k0 = self.partition.num_classes();
        let mut map = signature_map_new();
        let first = copy_u64s(&sigs[0]);
        signature_map_insert(&mut map, first, h);
        proof {
            let mm = signature_map_contents(map);
            assert(mm.dom() =~= set![sv[0]]);
            assert forall|key: Seq<u64>| #[trigger] mm.dom().contains(key) implies key_from_member(sv, 1, key) by {
                assert(sv[0] == key);
            }
        }
        let mut i: usize = 1;
        while i < m
            invariant
                fst.wf(),
                n == fst.n(),
                p0.wf(),
                p0.len() == n,
                k0 == p0.k(),
                (h as int) < k0,
                self.partition.wf(),
                self.partition.settled(),
                self.partition.len() == n,
                self.partition.k() >= k0,
                forall|x: usize| (x as int) < n ==> #[trigger] self.partition.class_at(x) == p0.class_at(x),
                members@.len() == m,
                sigs@.len() == m,
                sv.len() == m,
                forall|j: int| 0 <= j < m ==> #[trigger] sv[j] == sigs@[j]@,
                forall|j: int| 0 <= j < m ==> #[trigger] sv[j] == state_sig(fst, p0, members@[j]),
                1 <= i <= m,
                forall|j: int| 0 <= j < i ==> signature_map_contents(map).dom().contains(#[trigger] sv[j]),
                forall|key: Seq<u64>| #[trigger] signature_map_contents(map).dom().contains(key) ==> key_from_member(sv, i as int, key),
                signature_map_contents(map)[sv[0]] == h,
                forall|key: Seq<u64>|
                    #[trigger] signature_map_contents(map).dom().contains(key) ==> signature_map_contents(map)[key] == h
                        || (k0 <= signature_map_contents(map)[key] < self.partition.k()),
                forall|a: Seq<u64>, b: Seq<u64>|
                    signature_map_contents(map).dom().contains(a) && signature_map_contents(map).dom().contains(b)
                        && #[trigger] signature_map_contents(map)[a] == #[trigger] signature_map_contents(map)[b] ==> a == b,
                forall|c: int| k0 <= c < self.partition.k() ==> #[trigger] class_from_member(signature_map_contents(map), sv, i as int, c),
            decreases m - i,
        {
            let ghost mb = signature_map_contents(map);
            let ghost kb = self.partition.k();
            proof {
                assert(sv[i as int] == sigs@[i as int]@);
            }
            match signature_map_get(&map, &sigs[i]) {
                Some(_) => {
                    proof {
                        assert forall|key: Seq<u64>| #[trigger] mb.dom().contains(key) implies key_from_member(sv, i + 1, key) by {
                            assert(key_from_member(sv, i as int, key));
                            let j = choose|j: int| 0 <= j < i && #[trigger] sv[j] == key;
                        }
                        assert forall|c: int| k0 <= c < self.partition.k() implies #[trigger] class_from_member(mb, sv, i + 1, c) by {
                            assert(class_from_member(mb, sv, i as int, c));
                            let j = choose|j: int| 0 <= j < i && #[trigger] mb[sv[j]] == c;
                        }
                    }
                },
                None => {
                    let ghost pb = self.partition;
                    let c = self.partition.add_class();
                    proof {
                        assert forall|x: usize| (x as int) < n implies #[trigger] self.partition.class_at(x) == p0.class_at(x) by {
                            assert(self.partition.class_of(x as int) == pb.class_of(x as int));
                            assert(pb.class_at(x) == p0.class_at(x));
                        }
                    }
                    let key = copy_u64s(&sigs[i]);
                    signature_map_insert(&mut map, key, c);
                    proof {
                        let ma = signature_map_contents(map);
                        assert(ma == mb.insert(sv[i as int], c));
                        assert(!mb.dom().contains(sv[i as int]));
                        assert(sv[0] != sv[i as int]);
                        assert forall|key: Seq<u64>| #[trigger] ma.dom().contains(key) implies key_from_member(sv, i + 1, key) by {
                            if key == sv[i as int] {
                            } else {
                                assert(mb.dom().contains(key));
                                assert(key_from_member(sv, i as int, key));
                                let j = choose|j: int| 0 <= j < i && #[trigger] sv[j] == key;
                            }
                        }
                        assert forall|key: Seq<u64>| #[trigger] ma.dom().contains(key) implies ma[key] == h
                            || (k0 <= ma[key] < self.partition.k()) by {
                            if key != sv[i as int] {
                                assert(mb.dom().contains(key));
                            }
                        }
                        assert forall|a: Seq<u64>, b: Seq<u64>|
                            ma.dom().contains(a) && ma.dom().contains(b) && #[trigger] ma[a] == #[trigger] ma[b] implies a == b by {
                            if a != sv[i as int] && b != sv[i as int] {
                                assert(mb[a] == mb[b]);
                            } else if a == sv[i as int] && b != sv[i as int] {
                                assert(mb.dom().contains(b));
                                assert(mb[b] == h || mb[b] < kb);
                            } else if a != sv[i as int] && b == sv[i as int] {
                                assert(mb.dom().contains(a));
                                assert(mb[a] == h || mb[a] < kb);
                            }
                        }
                        assert forall|cc: int| k0 <= cc < self.partition.k() implies #[trigger] class_from_member(ma, sv, i + 1, cc) by {
                            if cc == c {
                                assert(ma[sv[i as int]] == cc);
                            } else {
                                assert(class_from_member(mb, sv, i as int, cc));
                                let j = choose|j: int| 0 <= j < i && #[trigger] mb[sv[j]] == cc;
                                assert(mb.dom().contains(sv[j]));
                                assert(ma[sv[j]] == cc);
                            }
                        }
                    }
                },
            }
            i = i + 1;
        }
        let ghost mm = signature_map_contents(map);
        let ghost p1 = self.partition;
        let mut i: usize = 0;
        while i < m
            invariant
                fst.wf(),
                n == fst.n(),
                p0.wf(),
                p0.len() == n,
                p1.wf(),
                p1.len() == n,
                k0 == p0.k(),
                p1.k() >= k0,
                (h as int) < k0,
                forall|x: usize| (x as int) < n ==> #[trigger] p1.class_at(x) == p0.class_at(x),
                self.partition.wf(),
                self.partition.settled(),
                self.partition.len() == n,
                self.partition.k() == p1.k(),
                signature_map_contents(map) == mm,
                members@.len() == m,
                members@.no_duplicates(),
                sigs@.len() == m,
                sv.len() == m,
                forall|j: int| 0 <= j < m ==> #[trigger] sv[j] == sigs@[j]@,
                forall|j: int| 0 <= j < m ==> #[trigger] sv[j] == state_sig(fst, p0, members@[j]),
                forall|j: int| 0 <= j < m ==> mm.dom().contains(#[trigger] sv[j]),
                forall|key: Seq<u64>|
                    #[trigger] mm.dom().contains(key) ==> mm[key] == h || (k0 <= mm[key] < p1.k()),
                forall|j: int| 0 <= j < m ==> (#[trigger] members@[j] as int) < n && p0.class_at(members@[j]) == h,
                i <= m,
                forall|j: int| 0 <= j < i ==> #[trigger] self.partition.class_at(members@[j]) == mm[sv[j]],
                forall|x: usize|
                    (x as int) < n && !members@.subrange(0, i as int).contains(x) ==> #[trigger] self.partition.class_at(x)
                        == p1.class_at(x),
            decreases m - i,
        {
            let ghost pb = self.partition;
            proof {
                assert(sv[i as int] == sigs@[i as int]@);
                assert(mm.dom().contains(sv[i as int]));
            }
            let c = match signature_map_get(&map, &sigs[i]) {
                Some(c) => c,
                None => h,
            };
            let e = members[i];
            proof {
                assert(!members@.subrange(0, i as int).contains(e)) by {
                    if members@.subrange(0, i as int).contains(e) {
                        let j = choose|j: int| 0 <= j < i && members@.subrange(0, i as int)[j] == e;
                        assert(members@[j] == members@[i as int]);
                    }
                }
                assert(self.partition.class_at(e) == h);
            }
            if c != h {
                self.partition.move_element(e, c);
            }
            proof {
                assert forall|j: int| 0 <= j < i + 1 implies #[trigger] self.partition.class_at(members@[j]) == mm[sv[j]] by {
                    if j < i {
                        assert(members@[j] != e);
                        assert(self.partition.class_at(members@[j]) == pb.class_at(members@[j]));
                    }
                }
                assert forall|x: usize|
                    (x as int) < n && !members@.subrange(0, i + 1).contains(x) implies #[trigger] self.partition.class_at(x)
                        == p1.class_at(x) by {
                    assert(x != e) by {
                        assert(members@.subrange(0, i + 1)[i as int] == e);
                    }
                    if members@.subrange(0, i as int).contains(x) {
                        let j = choose|j: int| 0 <= j < i && members@.subrange(0, i as int)[j] == x;
                        assert(members@.subrange(0, i + 1)[j] == x);
                    }
                    assert(self.partition.class_at(x) == pb.class_at(x));
                }
            }
            i = i + 1;
        }
        proof {
            let p3 = self.partition;
            assert forall|x: usize| (x as int) < n && p0.class_at(x) != h implies #[trigger] p3.class_at(x) == p0.class_at(x) by {
                if members@.subrange(0, m as int).contains(x) {
                    let j = choose|j: int| 0 <= j < m && members@.subrange(0, m as int)[j] == x;
                    assert(members@[j] == x);
                }
            }
            assert forall|x: usize| (x as int) < n && #[trigger] p0.class_at(x) == h implies mm.dom().contains(state_sig(fst, p0, x))
                && p3.class_at(x) == mm[state_sig(fst, p0, x)] by {
                assert(n == fst.states.len());
                assert(members@.contains(x));
                let j = choose|j: int| 0 <= j < m && members@[j] == x;
                assert(sv[j] == sigs@[j]@);
                assert(p3.class_at(members@[j]) == mm[sv[j]]);
            }
            assert(p3.class_at(members@[0]) == h);
            assert(p0.class_at(members@[0]) == h);
            assert forall|c: int| p0.k() <= c < p3.k() implies #[trigger] moved_into(fst, p0, p3, h as int, c) by {
                assert(class_from_member(mm, sv, m as int, c));
                let j = choose|j: int| 0 <= j < m && #[trigger] mm[sv[j]] == c;
                assert(p3.class_at(members@[j]) == mm[sv[j]]);
            }
            lemma_refine_step(fst, hs, p0, p3, mm, h as int, big_h);
        }
    }

    /// Splits the states of each height by signature, lowest height first.
    fn refine(&mut self, fst: &VectorFst)
        requires
            exists|hs: Seq<i32>| height_partition(fst, old(self).partition, hs),
        ensures
            final(self).partition.wf(),
            final(self).partition.settled(),
            final(self).partition.nonempty(),
            final(self).partition.len() == fst.n(),
            sig_congruence(fst, final(self).partition),
            crate::cyclic::finer_than(final(self).partition, old(self).partition, fst.n()),
            final(self).partition.k() >= old(self).partition.k(),
    {
        let ghost p_start = self.partition;
        let ghost hs = choose|hs: Seq<i32>| height_partition(fst, self.partition, hs);
        let height = self.partition.num_classes();
        let ghost big_h = height as int;
        proof {
            let p = self.partition;
            p.lemma_wf();
            assert forall|x: usize| (x as int) < fst.n() implies height_at(hs, x) < big_h by {
                assert(p.class_at(x) == height_at(hs, x));
                assert(p.class_of(x as int) < p.k());
            }
            assert(refined_below(fst, p, hs, 0, big_h));
        }
        let mut h: usize = 0;
        while h < height
            invariant
                fst.wf(),
                heights_of(fst, hs),
                big_h == height,
                h <= height,
                forall|x: usize| (x as int) < fst.n() ==> #[trigger] height_at(hs, x) < big_h,
                refined_below(fst, self.partition, hs, h as int, big_h),
            decreases height - h,
        {
            self.refine_height(fst, h, Ghost(hs), Ghost(big_h));
            h = h + 1;
        }
        proof {
            let p = self.partition;
            assert forall|x: usize, y: usize|
                (x as int) < fst.n() && (y as int) < fst.n() && #[trigger] p.class_at(x) == #[trigger] p.class_at(y) implies p_start.class_at(
                x,
            ) == p_start.class_at(y) by {
                assert(height_at(hs, x) == height_at(hs, y));
                assert(p_start.class_at(x) == height_at(hs, x));
                assert(p_start.class_at(y) == height_at(hs, y));
            }
        }
    }

    /// Groups the states by height, computed by a depth-first search from
    /// the start state.
    fn initialize(&mut self, fst: &VectorFst)
        requires
            fst.wf(),
            fst.n() <= i32::MAX,
            fst.acyclic(),
            fst.start is Some,
            forall|s: usize| (s as int) < fst.n() ==> #[trigger] fst.accessible(s),
        ensures
            exists|hs: Seq<i32>| height_partition(fst, final(self).partition, hs),
    {
        let st = match fst.start {
            Some(s) => s,
            None => 0,
        };
        let mut acc: HashSet<usize> = HashSet::new();
        let mut full: HashSet<usize> = HashSet::new();
        let mut heights: Vec<i32> = Vec::new();
        proof {
            assert(depth_search_state(fst, acc@, full@, heights@));
        }
        let _ = fst_depth(fst, st, &mut acc, &mut full, &mut heights);
        let n = fst.num_states();
        proof {
            assert(acc@ =~= full@);
            lemma_reached_all_examined(fst, acc@, full@, heights@, st);
            assert(full@.contains((n - 1) as usize));
            assert(heights@.len() == n);
            crate::graph::lemma_bounded_set_len(full@, n as int);
            assert forall|x: usize| (x as int) < n implies 0 <= #[trigger] height_at(heights@, x) < n by {
                assert(full@.contains(x));
            }
            assert forall|x: usize| (x as int) < n implies #[trigger] height_at(heights@, x) == succ_height(
                heights@,
                fst.trs_at(x),
                fst.trs_at(x).len() as int,
            ) by {
                assert(full@.contains(x));
                crate::depth::lemma_acyclic_cycle_free(fst, x);
                assert(settled_height(fst, full@, heights@, x));
            }
            assert(heights_of(fst, heights@));
        }
        let ghost hs = heights@;
        let mut mx: i32 = heights[0];
        let mut arg: usize = 0;
        let mut s: usize = 1;
        while s < n
            invariant
                n == fst.n(),
                heights@ == hs,
                heights_of(fst, hs),
                1 <= s <= n,
                (arg as int) < n,
                mx as int == height_at(hs, arg),
                forall|x: usize| (x as int) < s ==> #[trigger] height_at(hs, x) <= mx,
            decreases n - s,
        {
            if heights[s] > mx {
                mx = heights[s];
                arg = s;
            }
            s = s + 1;
        }
        proof {
            assert(height_at(hs, arg) < n);
        }
        let k: usize = (mx + 1) as usize;
        let mut ids: Vec<usize> = Vec::new();
        let mut s: usize = 0;
        while s < n
            invariant
                n == fst.n(),
                heights@ == hs,
                heights_of(fst, hs),
                s <= n,
                k == mx + 1,
                forall|x: usize| (x as int) < n ==> #[trigger] height_at(hs, x) <= mx,
                ids@.len() == s,
                forall|e: int| 0 <= e < s ==> #[trigger] ids@[e] == hs[e],
            decreases n - s,
        {
            proof {
                assert(0 <= height_at(hs, s) <= mx);
            }
            ids.push(heights[s] as usize);
            s = s + 1;
        }
        proof {
            assert(n == fst.states.len());
            assert forall|e: int| 0 <= e < ids@.len() implies ids@[e] < k by {
                assert(height_at(hs, e as usize) <= mx);
            }
            assert forall|c: int| 0 <= c < k implies #[trigger] seq_holds(ids@, c) by {
                lemma_heights_contiguous(fst, hs, arg, c);
                let y = choose|y: usize| (y as int) < fst.n() && height_at(hs, y) == c;
                assert(ids@[y as int] == c);
            }
        }
        self.partition = Partition::from_class_ids(&ids, k);
        proof {
            let p = self.partition;
            assert forall|x: usize| (x as int) < fst.n() implies #[trigger] p.class_at(x) == height_at(hs, x) by {
                assert(p.class_of(x as int) == ids@[x as int]);
            }
            assert(height_partition(fst, p, hs));
        }
    }

    /// Minimizes an acyclic fst whose states are all accessible: the
    /// resulting partition groups exactly the states with equal signatures.
    pub fn new(fst: &mut VectorFst) -> (r: Self)
        requires
            old(fst).wf(),
            old(fst).n() <= i32::MAX,
            old(fst).acyclic(),
            old(fst).start is Some,
            forall|s: usize| (s as int) < old(fst).n() ==> #[trigger] old(fst).accessible(s),
        ensures
            *final(fst) == *old(fst),
            r.partition.wf(),
            r.partition.settled(),
            r.partition.nonempty(),
            r.partition.len() == old(fst).n(),
            sig_congruence(old(fst), r.partition),
    {
        let empty: Vec<usize> = Vec::new();
        let mut c = AcyclicMinimizer { partition: Partition::from_class_ids(&empty, 0) };
        c.initialize(fst);
        c.refine(fst);
        c
    }

    /// The partition of the states that the minimization computed.
    pub fn get_partition(self) -> (r: Partition)
        ensures
            r == self.partition,
    {
        self.partition
    }
}

/// A depth-first search from the start state that ends with no state left
/// half-examined has examined every accessible state.
pub proof fn lemma_reached_all_examined(
    fst: &VectorFst,
    acc: Set<usize>,
    full: Set<usize>,
    h: Seq<i32>,
    st: usize,
)
    requires
        depth_search_state(fst, acc, full, h),
        acc == full,
        full.contains(st),
        fst.start == Some(st),
        forall|s: usize| (s as int) < fst.n() ==> #[trigger] fst.accessible(s),
    ensures
        forall|s: usize| (s as int) < fst.n() ==> #[trigger] full.contains(s),
{
    let g = fst.succ_graph();
    let n = fst.n();
    let mark = Seq::new(n as nat, |i: int| full.contains(i as usize));
    assert forall|a: usize, b: usize|
        (a as int) < g.len() && mark[a as int] && #[trigger] edge(g, a, b) implies mark[b as int] by {
        crate::connect::lemma_succ_edge(*fst, a, b);
        let j = choose|j: int| 0 <= j < fst.trs_of(a as int).len() && #[trigger] fst.trs_of(a as int)[j].nextstate == b;
        assert(fst.trs_at(a)[j].nextstate == b);
        assert(full.contains(a));
        assert(acc.contains(b));
        assert((b as int) < n);
    }
    assert forall|s: usize| (s as int) < fst.n() implies #[trigger] full.contains(s) by {
        assert(fst.accessible(s));
        let p = choose|p: Seq<usize>| #[trigger] is_walk(g, p) && p[0] == st && p.last() == s;
        assert(mark[st as int]);
        lemma_closed_walk(g, mark, p);
    }
}

} // verus!
