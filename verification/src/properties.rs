use vstd::prelude::*;

use std::collections::HashSet;

use crate::depth::depth_search_state;
use crate::depth::fst_depth;
use crate::depth::height_at;
use crate::depth::settled_height;
use crate::depth::succ_height;
use crate::connect::succ_lists;
use crate::fst::Tr;
use crate::graph::lists_view;
use crate::graph::reach_from;
use crate::graph::reaches;
use crate::fst::VectorFst;
use crate::fst::WEIGHT_ONE;
use crate::fst::WEIGHT_ZERO;

verus! {

broadcast use vstd::std_specs::hash::group_hash_axioms;

/// Whether every transition of `fst` has equal input and output labels.
pub fn check_acceptor(fst: &VectorFst) -> (r: bool)
    ensures
        r == fst.is_acceptor(),
{
    let n = fst.num_states();
    let mut s: usize = 0;
    while s < n
        invariant
            n == fst.n(),
            s <= n,
            forall|q: usize, i: int|
                q < s && 0 <= i < fst.trs_at(q).len() ==> (#[trigger] fst.trs_at(q)[i]).ilabel
                    == fst.trs_at(q)[i].olabel,
        decreases n - s,
    {
        let trs = fst.get_trs(s);
        let mut i: usize = 0;
        while i < trs.len()
            invariant
                (s as int) < fst.n(),
                trs@ == fst.trs_at(s),
                i <= trs@.len(),
                forall|j: int| 0 <= j < i ==> (#[trigger] trs@[j]).ilabel == trs@[j].olabel,
            decreases trs@.len() - i,
        {
            if trs[i].ilabel != trs[i].olabel {
                proof {
                    assert(fst.trs_at(s)[i as int] == trs@[i as int]);
                }
                return false;
            }
            i = i + 1;
        }
        s = s + 1;
    }
    true
}

/// Whether every weight of `fst` is `One` or `Zero`.
pub fn check_unweighted(fst: &VectorFst) -> (r: bool)
    ensures
        r == fst.is_unweighted(),
{
    let n = fst.num_states();
    let mut s: usize = 0;
    while s < n
        invariant
            n == fst.n(),
            s <= n,
            forall|q: usize, i: int|
                q < s && 0 <= i < fst.trs_at(q).len() ==> crate::fst::trivial_weight(
                    (#[trigger] fst.trs_at(q)[i]).weight,
                ),
            forall|q: usize|
                q < s ==> match #[trigger] fst.final_at(q) {
                    Some(w) => crate::fst::trivial_weight(w),
                    None => true,
                },
        decreases n - s,
    {
        match fst.final_weight(s) {
            Some(w) => {
                if w != WEIGHT_ONE && w != WEIGHT_ZERO {
                    proof {
                        assert(fst.final_at(s) == Some(w));
                    }
                    return false;
                }
            },
            None => {},
        }
        let trs = fst.get_trs(s);
        let mut i: usize = 0;
        while i < trs.len()
            invariant
                (s as int) < fst.n(),
                trs@ == fst.trs_at(s),
                i <= trs@.len(),
                forall|j: int| 0 <= j < i ==> crate::fst::trivial_weight((#[trigger] trs@[j]).weight),
            decreases trs@.len() - i,
        {
            let w = trs[i].weight;
            if w != WEIGHT_ONE && w != WEIGHT_ZERO {
                proof {
                    assert(fst.trs_at(s)[i as int] == trs@[i as int]);
                }
                return false;
            }
            i = i + 1;
        }
        s = s + 1;
    }
    true
}

/// Whether no state of `fst` has two transitions with the same input label.
pub fn check_i_deterministic(fst: &VectorFst) -> (r: bool)
    ensures
        r == fst.is_i_deterministic(),
{
    let n = fst.num_states();
    let mut s: usize = 0;
    while s < n
        invariant
            n == fst.n(),
            s <= n,
            forall|q: usize, i: int, j: int|
                #![trigger fst.trs_at(q)[i], fst.trs_at(q)[j]]
                q < s && 0 <= i < j < fst.trs_at(q).len() ==> fst.trs_at(q)[i].ilabel != fst.trs_at(
                    q,
                )[j].ilabel,
        decreases n - s,
    {
        let trs = fst.get_trs(s);
        let mut j: usize = 0;
        while j < trs.len()
            invariant
                (s as int) < fst.n(),
                trs@ == fst.trs_at(s),
                j <= trs@.len(),
                forall|a: int, b: int|
                    #![trigger trs@[a], trs@[b]]
                    0 <= a < b < j ==> trs@[a].ilabel != trs@[b].ilabel,
            decreases trs@.len() - j,
        {
            let mut i: usize = 0;
            while i < j
                invariant
                    (s as int) < fst.n(),
                    trs@ == fst.trs_at(s),
                    j < trs@.len(),
                    i <= j,
                    forall|a: int| 0 <= a < i ==> (#[trigger] trs@[a]).ilabel != trs@[j as int].ilabel,
                decreases j - i,
            {
                if trs[i].ilabel == trs[j].ilabel {
                    proof {
                        assert(fst.trs_at(s)[i as int] == trs@[i as int]);
                        assert(fst.trs_at(s)[j as int] == trs@[j as int]);
                    }
                    return false;
                }
                i = i + 1;
            }
            j = j + 1;
        }
        s = s + 1;
    }
    true
}

/// `succ_height` is at least one more than the height of each destination.
pub proof fn lemma_succ_height_ge(h: Seq<i32>, trs: Seq<Tr>, m: int, j: int)
    requires
        0 <= j < m,
    ensures
        succ_height(h, trs, m) >= 1 + height_at(h, trs[j].nextstate),
        succ_height(h, trs, m) >= 0,
    decreases m,
{
    assert(succ_height(h, trs, 0) == 0);
    if j < m - 1 {
        lemma_succ_height_ge(h, trs, m - 1, j);
    } else if m > 1 {
        lemma_succ_height_ge(h, trs, m - 1, 0);
    }
}

/// Whether no path of transitions of `fst` leads from a state back to itself.
pub fn check_acyclic(fst: &VectorFst) -> (r: bool)
    requires
        fst.wf(),
        fst.n() <= i32::MAX,
    ensures
        r == fst.acyclic(),
{
    let n = fst.num_states();
    let mut acc: HashSet<usize> = HashSet::new();
    let mut full: HashSet<usize> = HashSet::new();
    let mut heights: Vec<i32> = Vec::new();
    let mut s: usize = 0;
    proof {
        assert(depth_search_state(fst, acc@, full@, heights@));
    }
    while s < n
        invariant
            n == fst.n(),
            s <= n,
            depth_search_state(fst, acc@, full@, heights@),
            acc@ == full@,
            forall|q: usize| q < s ==> #[trigger] full@.contains(q),
        decreases n - s,
    {
        if !acc.contains(&s) {
            let _ = fst_depth(fst, s, &mut acc, &mut full, &mut heights);
            proof {
                assert(acc@ =~= full@);
            }
        }
        s = s + 1;
    }
    proof {
        if n > 0 {
            assert(full@.contains((n - 1) as usize));
        }
        assert(heights@.len() == n);
    }
    let mut q: usize = 0;
    while q < n
        invariant
            n == fst.n(),
            q <= n,
            heights@.len() == n,
            depth_search_state(fst, acc@, full@, heights@),
            forall|x: usize| x < n ==> #[trigger] full@.contains(x),
            forall|x: usize, i: int|
                x < q && 0 <= i < fst.trs_at(x).len() ==> height_at(
                    heights@,
                    (#[trigger] fst.trs_at(x)[i]).nextstate,
                ) < height_at(heights@, x),
        decreases n - q,
    {
        let trs = fst.get_trs(q);
        let hq = heights[q];
        let mut i: usize = 0;
        while i < trs.len()
            invariant
                n == fst.n(),
                q < n,
                heights@.len() == n,
                trs@ == fst.trs_at(q),
                i <= trs@.len(),
                hq as int == height_at(heights@, q),
                depth_search_state(fst, acc@, full@, heights@),
                forall|x: usize| x < n ==> #[trigger] full@.contains(x),
                forall|j: int|
                    0 <= j < i ==> height_at(heights@, (#[trigger] trs@[j]).nextstate) < height_at(
                        heights@,
                        q,
                    ),
            decreases trs@.len() - i,
        {
            let t = trs[i].nextstate;
            proof {
                assert(trs@[i as int] == fst.trs_at(q)[i as int]);
            }
            if heights[t] >= hq {
                proof {
                    if fst.acyclic() {
                        assert(full@.contains(q));
                        crate::depth::lemma_acyclic_cycle_free(fst, q);
                        assert(settled_height(fst, full@, heights@, q));
                        lemma_succ_height_ge(heights@, trs@, trs@.len() as int, i as int);
                    }
                }
                return false;
            }
            i = i + 1;
        }
        proof {
            assert forall|x: usize, j: int|
                x < q + 1 && 0 <= j < fst.trs_at(x).len() implies height_at(
                heights@,
                (#[trigger] fst.trs_at(x)[j]).nextstate,
            ) < height_at(heights@, x) by {
                if x == q {
                    assert(trs@[j] == fst.trs_at(x)[j]);
                }
            }
        }
        q = q + 1;
    }
    proof {
        let h = heights@;
        let r = |x: usize| if (x as int) < h.len() { height_at(h, x) as nat } else { 0nat };
        assert forall|x: usize, i: int|
            (x as int) < fst.n() && 0 <= i < fst.trs_at(x).len() implies r(
            #[trigger] fst.trs_at(x)[i].nextstate,
        ) < r(x) by {
            let t = fst.trs_at(x)[i].nextstate;
            assert((t as int) < fst.n());
            assert(full@.contains(t));
            assert(full@.contains(x));
            assert(height_at(h, t) >= 0);
        }
        assert(fst.is_ranking(r));
    }
    true
}

/// Whether the start state, if any, and the destination of every transition
/// are states of `fst`.
pub fn check_wf(fst: &VectorFst) -> (r: bool)
    ensures
        r == fst.wf(),
{
    let n = fst.num_states();
    match fst.start {
        Some(st) => {
            if st >= n {
                return false;
            }
        },
        None => {},
    }
    let mut s: usize = 0;
    while s < n
        invariant
            n == fst.n(),
            s <= n,
            fst.start matches Some(st) ==> (st as int) < n,
            forall|q: int, i: int|
                0 <= q < s && 0 <= i < fst.trs_of(q).len() ==> (#[trigger] fst.trs_of(q)[i]).nextstate < n,
        decreases n - s,
    {
        let trs = fst.get_trs(s);
        let mut i: usize = 0;
        while i < trs.len()
            invariant
                (s as int) < fst.n(),
                n == fst.n(),
                trs@ == fst.trs_of(s as int),
                i <= trs@.len(),
                forall|j: int| 0 <= j < i ==> (#[trigger] trs@[j]).nextstate < n,
            decreases trs@.len() - i,
        {
            if trs[i].nextstate >= n {
                return false;
            }
            i = i + 1;
        }
        s = s + 1;
    }
    true
}

/// Whether some state reachable from the start state has the final weight
/// `Zero`.
pub fn check_zero_final_accessible(fst: &VectorFst) -> (r: bool)
    requires
        fst.wf(),
    ensures
        r == exists|s: usize|
            (s as int) < fst.n() && #[trigger] fst.accessible(s) && fst.final_at(s) == Some(WEIGHT_ZERO),
{
    let n = fst.num_states();
    let succ = succ_lists(fst);
    let mut starts: Vec<usize> = Vec::new();
    match fst.start {
        Some(st) => {
            starts.push(st);
        },
        None => {},
    }
    proof {
        assert(lists_view(succ@).len() == succ@.len());
        if fst.start is Some {
            assert(starts@[0] == fst.start.unwrap());
        }
    }
    let acc = reach_from(&succ, &starts);
    proof {
        let g = fst.succ_graph();
        assert forall|v: usize| (v as int) < n implies (#[trigger] acc@[v as int] <==> fst.accessible(v)) by {
            if acc@[v as int] {
                let i0 = choose|i0: int| 0 <= i0 < starts@.len() && #[trigger] reaches(g, starts@[i0], v);
                assert(fst.start is Some);
                assert(starts@.len() == 1);
                assert(starts@[i0] == fst.start.unwrap());
            }
            if fst.accessible(v) {
                assert(starts@[0] == fst.start.unwrap());
                assert(reaches(g, starts@[0], v));
            }
        }
    }
    let mut s: usize = 0;
    while s < n
        invariant
            n == fst.n(),
            s <= n,
            acc@.len() == n,
            forall|v: usize| (v as int) < n ==> (#[trigger] acc@[v as int] <==> fst.accessible(v)),
            forall|q: usize| q < s && #[trigger] fst.accessible(q) ==> fst.final_at(q) != Some(WEIGHT_ZERO),
        decreases n - s,
    {
        if acc[s] {
            match fst.final_weight(s) {
                Some(w) => {
                    if w == WEIGHT_ZERO {
                        proof {
                            assert(fst.accessible(s));
                        }
                        return true;
                    }
                },
                None => {},
            }
        }
        s = s + 1;
    }
    false
}

} // verus!
