use vstd::prelude::*;

use std::collections::HashSet;

use crate::connect::lemma_succ_edge;
use crate::fst::Tr;
use crate::fst::VectorFst;
use crate::graph::edge;
use crate::graph::is_walk;
use crate::graph::lemma_bounded_set_len;
use crate::graph::lemma_reaches_prepend;
use crate::graph::reaches;

verus! {

broadcast use vstd::std_specs::hash::group_hash_axioms;

/// The height recorded for state `x`.
pub open spec fn height_at(h: Seq<i32>, x: usize) -> int {
    h[x as int] as int
}

/// `max(0, 1 + h[t.nextstate])` over the first `m` transitions `t` of `trs`.
pub open spec fn succ_height(h: Seq<i32>, trs: Seq<Tr>, m: int) -> int
    decreases m,
{
    if m <= 0 {
        0
    } else {
        let prev = succ_height(h, trs, m - 1);
        let c = 1 + height_at(h, trs[m - 1].nextstate);
        if c > prev {
            c
        } else {
            prev
        }
    }
}

/// The height of `x` is one more than the largest height of its
/// destinations (0 when it has no transition), and every destination is
/// fully examined.
pub open spec fn settled_height(fst: &VectorFst, full: Set<usize>, h: Seq<i32>, x: usize) -> bool {
    &&& forall|i: int|
        0 <= i < fst.trs_at(x).len() ==> full.contains(#[trigger] fst.trs_at(x)[i].nextstate)
    &&& height_at(h, x) == succ_height(h, fst.trs_at(x), fst.trs_at(x).len() as int)
}

/// The state of a depth-first height computation: `acc` holds the visited
/// states, `full` those whose transitions have all been examined, and `h`
/// their heights (`-1` for a state not fully examined yet).
pub open spec fn depth_search_state(
    fst: &VectorFst,
    acc: Set<usize>,
    full: Set<usize>,
    h: Seq<i32>,
) -> bool {
    &&& fst.wf()
    &&& fst.n() <= i32::MAX
    &&& h.len() <= fst.n()
    &&& full.subset_of(acc)
    &&& forall|x: usize| #[trigger] acc.contains(x) ==> (x as int) < h.len()
    &&& forall|x: usize|
        (x as int) < h.len() && #[trigger] full.contains(x) ==> 0 <= height_at(h, x) < full.len()
    &&& forall|x: usize|
        (x as int) < h.len() && !full.contains(x) ==> #[trigger] height_at(h, x) == -1
    &&& forall|x: usize, i: int|
        full.contains(x) && 0 <= i < fst.trs_at(x).len() ==> acc.contains(
            #[trigger] fst.trs_at(x)[i].nextstate,
        )
    &&& forall|x: usize| #[trigger]
        full.contains(x) && cycle_free_from(fst, x) ==> settled_height(fst, full, h, x)
}

/// The recorded heights of the destinations decide `succ_height`.
pub proof fn lemma_succ_height_frame(h1: Seq<i32>, h2: Seq<i32>, trs: Seq<Tr>, m: int)
    requires
        forall|j: int|
            0 <= j < m ==> height_at(h1, (#[trigger] trs[j]).nextstate) == height_at(
                h2,
                trs[j].nextstate,
            ),
    ensures
        succ_height(h1, trs, m) == succ_height(h2, trs, m),
    decreases m,
{
    if m > 0 {
        lemma_succ_height_frame(h1, h2, trs, m - 1);
    }
}

/// Along a transition the rank drops.
pub proof fn lemma_ranking_edge(fst: &VectorFst, r: spec_fn(usize) -> nat, a: usize, b: usize)
    requires
        fst.is_ranking(r),
        edge(fst.succ_graph(), a, b),
    ensures
        r(b) < r(a),
{
    let g = fst.succ_graph();
    let j = choose|j: int| 0 <= j < g[a as int].len() && g[a as int][j] == b;
    assert(g[a as int][j] == fst.trs_at(a)[j].nextstate);
}

/// Along a walk the rank does not grow.
pub proof fn lemma_ranking_walk(fst: &VectorFst, r: spec_fn(usize) -> nat, p: Seq<usize>)
    requires
        fst.is_ranking(r),
        is_walk(fst.succ_graph(), p),
    ensures
        r(p.last()) <= r(p[0]),
    decreases p.len(),
{
    let g = fst.succ_graph();
    if p.len() > 1 {
        let q = p.drop_last();
        assert(is_walk(g, q)) by {
            assert forall|i: int| 0 <= i < q.len() - 1 implies #[trigger] edge(g, q[i], q[i + 1]) by {
                assert(edge(g, p[i], p[i + 1]));
            }
        }
        lemma_ranking_walk(fst, r, q);
        let i = p.len() - 2;
        assert(edge(g, p[i], p[i + 1]));
        lemma_ranking_edge(fst, r, p[i], p[i + 1]);
        assert(q.last() == p[i]);
    }
}

/// A state reached from `a` has a rank no higher than that of `a`.
pub proof fn lemma_ranking_reaches(fst: &VectorFst, r: spec_fn(usize) -> nat, a: usize, b: usize)
    requires
        fst.is_ranking(r),
        reaches(fst.succ_graph(), a, b),
    ensures
        r(b) <= r(a),
{
    let p = choose|p: Seq<usize>| #[trigger] is_walk(fst.succ_graph(), p) && p[0] == a && p.last() == b;
    lemma_ranking_walk(fst, r, p);
}

/// State `y` lies on a cycle of transitions.
pub open spec fn on_cycle(fst: &VectorFst, y: usize) -> bool {
    exists|z: usize| #[trigger] edge(fst.succ_graph(), y, z) && reaches(fst.succ_graph(), z, y)
}

/// No state reached from `s` lies on a cycle.
pub open spec fn cycle_free_from(fst: &VectorFst, s: usize) -> bool {
    forall|y: usize| #[trigger] reaches(fst.succ_graph(), s, y) ==> !on_cycle(fst, y)
}

/// In an acyclic fst no cycle can be reached from any state.
pub proof fn lemma_acyclic_cycle_free(fst: &VectorFst, s: usize)
    requires
        fst.acyclic(),
    ensures
        cycle_free_from(fst, s),
{
    let r = choose|r: spec_fn(usize) -> nat| #[trigger] fst.is_ranking(r);
    assert forall|y: usize| #[trigger] reaches(fst.succ_graph(), s, y) implies !on_cycle(fst, y) by {
        if on_cycle(fst, y) {
            let z = choose|z: usize| #[trigger] edge(fst.succ_graph(), y, z) && reaches(fst.succ_graph(), z, y);
            lemma_ranking_edge(fst, r, y, z);
            lemma_ranking_reaches(fst, r, z, y);
        }
    }
}

/// Why a height computation was refused.
#[derive(Clone, Copy, Debug, PartialEq, Eq, Structural)]
pub enum DepthError {
    /// The state to start from is not a state of the fst.
    NoSuchState,
}

/// Computes by a depth-first search from `state_id_cour` the height of the
/// states it reaches: the length of the longest path of transitions from
/// the state (0 for a state without transitions).  Every fully examined
/// state from which no cycle can be reached ends with its height settled.  A start state that
/// is not a state of the fst is recorded as visited, `heights` is padded
/// with -1 up to it, and an error is returned.
pub fn fst_depth(
    fst: &VectorFst,
    state_id_cour: usize,
    accessible_states: &mut HashSet<usize>,
    fully_examined_states: &mut HashSet<usize>,
    heights: &mut Vec<i32>,
) -> (r: Result<(), DepthError>)
    requires
        depth_search_state(fst, old(accessible_states)@, old(fully_examined_states)@, old(heights)@),
        !old(accessible_states)@.contains(state_id_cour),
        state_id_cour < usize::MAX,
        forall|x: usize|
            #[trigger] old(accessible_states)@.contains(x) && !old(fully_examined_states)@.contains(x)
                ==> reaches(fst.succ_graph(), x, state_id_cour),
    ensures
        r is Err <==> !fst.has_state(state_id_cour),
        r is Err ==> r == Err::<(), DepthError>(DepthError::NoSuchState),
        r is Err ==> final(accessible_states)@ == old(accessible_states)@.insert(state_id_cour),
        r is Err ==> final(fully_examined_states)@ == old(fully_examined_states)@,
        r is Err ==> final(heights)@.len() == if old(heights)@.len() > state_id_cour {
            old(heights)@.len() as int
        } else {
            state_id_cour + 1
        },
        r is Err ==> forall|i: int| 0 <= i < old(heights)@.len() ==> #[trigger] final(heights)@[i] == old(heights)@[i],
        r is Err ==> forall|i: int|
            old(heights)@.len() <= i < final(heights)@.len() ==> #[trigger] final(heights)@[i] == -1,
        r is Ok ==> depth_search_state(fst, final(accessible_states)@, final(fully_examined_states)@, final(heights)@),
        r is Ok ==> old(accessible_states)@.subset_of(final(accessible_states)@),
        r is Ok ==> old(fully_examined_states)@.subset_of(final(fully_examined_states)@),
        r is Ok ==> final(fully_examined_states)@.contains(state_id_cour),
        r is Ok ==> forall|x: usize|
            #![trigger final(accessible_states)@.contains(x)]
            #![trigger old(accessible_states)@.contains(x)]
            (final(accessible_states)@.contains(x) && !final(fully_examined_states)@.contains(x))
                == (old(accessible_states)@.contains(x) && !old(fully_examined_states)@.contains(x)),
        r is Ok ==> forall|x: usize|
            #[trigger] final(accessible_states)@.contains(x) ==> old(accessible_states)@.contains(x) || reaches(
                fst.succ_graph(),
                state_id_cour,
                x,
            ),
        r is Ok ==> old(heights)@.len() <= final(heights)@.len(),
        r is Ok ==> final(heights)@.len() == old(heights)@.len() || (final(accessible_states)@.contains(
            (final(heights)@.len() - 1) as usize,
        ) && !old(accessible_states)@.contains((final(heights)@.len() - 1) as usize)),
        r is Ok ==> forall|x: usize| #[trigger]
            old(accessible_states)@.contains(x) ==> height_at(final(heights)@, x) == height_at(
                old(heights)@,
                x,
            ),
{
    if state_id_cour >= fst.num_states() {
        let ghost h0 = heights@;
        accessible_states.insert(state_id_cour);
        while heights.len() <= state_id_cour
            invariant
                state_id_cour < usize::MAX,
                h0.len() <= heights@.len(),
                heights@.len() <= state_id_cour + 1 || heights@ == h0,
                forall|i: int| 0 <= i < h0.len() ==> #[trigger] heights@[i] == h0[i],
                forall|i: int| h0.len() <= i < heights@.len() ==> #[trigger] heights@[i] == -1,
            decreases state_id_cour + 1 - heights@.len(),
        {
            heights.push(-1);
        }
        return Err(DepthError::NoSuchState);
    }
    depth_visit(fst, state_id_cour, accessible_states, fully_examined_states, heights);
    Ok(())
}

/// The depth-first search of `fst_depth` from a state of the fst.
fn depth_visit(
    fst: &VectorFst,
    state_id_cour: usize,
    accessible_states: &mut HashSet<usize>,
    fully_examined_states: &mut HashSet<usize>,
    heights: &mut Vec<i32>,
)
    requires
        depth_search_state(fst, old(accessible_states)@, old(fully_examined_states)@, old(heights)@),
        fst.has_state(state_id_cour),
        !old(accessible_states)@.contains(state_id_cour),
        forall|x: usize|
            #[trigger] old(accessible_states)@.contains(x) && !old(fully_examined_states)@.contains(x)
                ==> reaches(fst.succ_graph(), x, state_id_cour),
    ensures
        depth_search_state(fst, final(accessible_states)@, final(fully_examined_states)@, final(heights)@),
        old(accessible_states)@.subset_of(final(accessible_states)@),
        old(fully_examined_states)@.subset_of(final(fully_examined_states)@),
        final(fully_examined_states)@.contains(state_id_cour),
        forall|x: usize|
            #![trigger final(accessible_states)@.contains(x)]
            #![trigger old(accessible_states)@.contains(x)]
            (final(accessible_states)@.contains(x) && !final(fully_examined_states)@.contains(x))
                == (old(accessible_states)@.contains(x) && !old(fully_examined_states)@.contains(x)),
        forall|x: usize|
            #[trigger] final(accessible_states)@.contains(x) ==> old(accessible_states)@.contains(x) || reaches(
                fst.succ_graph(),
                state_id_cour,
                x,
            ),
        old(heights)@.len() <= final(heights)@.len(),
        final(heights)@.len() == old(heights)@.len() || (final(accessible_states)@.contains(
            (final(heights)@.len() - 1) as usize,
        ) && !old(accessible_states)@.contains((final(heights)@.len() - 1) as usize)),
        forall|x: usize| #[trigger]
            old(accessible_states)@.contains(x) ==> height_at(final(heights)@, x) == height_at(
                old(heights)@,
                x,
            ),
    decreases fst.n() - old(accessible_states)@.len(),
{
    let ghost a0 = accessible_states@;
    let ghost f0 = fully_examined_states@;
    let ghost h0 = heights@;
    let ghost g = fst.succ_graph();
    let cur = state_id_cour;
    proof {
        lemma_bounded_set_len(a0, h0.len() as int);
    }
    accessible_states.insert(cur);
    while heights.len() <= cur
        invariant
            fst.has_state(cur),
            fst.wf(),
            h0.len() <= heights@.len() <= fst.n(),
            heights@.len() <= cur + 1 || heights@ == h0,
            forall|x: int| 0 <= x < h0.len() ==> heights@[x] == h0[x],
            forall|x: int| h0.len() <= x < heights@.len() ==> heights@[x] == -1,
        decreases cur + 1 - heights@.len(),
    {
        heights.push(-1);
    }
    let ghost a1 = accessible_states@;
    proof {
        assert(a1 == a0.insert(cur));
        assert forall|x: usize| #[trigger] a0.contains(x) implies height_at(heights@, x) == height_at(h0, x) by {}
        assert forall|x: usize| #[trigger] f0.contains(x) implies height_at(heights@, x) == height_at(h0, x) by {}
        assert forall|x: usize| #[trigger] f0.contains(x) && cycle_free_from(fst, x) implies settled_height(fst, f0, heights@, x) by {
            assert(settled_height(fst, f0, h0, x));
            lemma_succ_height_frame(h0, heights@, fst.trs_at(x), fst.trs_at(x).len() as int);
        }
        let h1 = heights@;
        assert(f0.subset_of(a1));
        assert(forall|x: usize| #[trigger] a1.contains(x) ==> (x as int) < h1.len());
        assert(forall|x: usize| (x as int) < h1.len() && #[trigger] f0.contains(x) ==> 0 <= height_at(h1, x) < f0.len());
        assert forall|x: usize| (x as int) < h1.len() && !f0.contains(x) implies #[trigger] height_at(h1, x) == -1 by {
            if (x as int) >= h0.len() {
                assert(h1[x as int] == -1);
            } else {
                assert(height_at(h0, x) == -1);
                assert(h1[x as int] == h0[x as int]);
            }
        }
        assert(forall|x: usize, i: int| f0.contains(x) && 0 <= i < fst.trs_at(x).len() ==> a1.contains(#[trigger] fst.trs_at(x)[i].nextstate));
        assert(depth_search_state(fst, a1, f0, heights@));
    }
    proof {
        crate::graph::lemma_reaches_refl(g, cur);
        if heights@.len() != h0.len() {
            assert(heights@.len() == cur + 1);
        }
    }
    let mut height_cur_state: i32 = 0;
    let trs = fst.get_trs(cur);
    let mut i: usize = 0;
    while i < trs.len()
        invariant
            fst.has_state(cur),
            g == fst.succ_graph(),
            trs@ == fst.trs_at(cur),
            i <= trs@.len(),
            depth_search_state(fst, accessible_states@, fully_examined_states@, heights@),
            a1 == a0.insert(cur),
            a0 == old(accessible_states)@,
            a0.finite(),
            !a0.contains(cur),
            a1.subset_of(accessible_states@),
            f0.subset_of(fully_examined_states@),
            !fully_examined_states@.contains(cur),
            forall|x: usize|
                #![trigger accessible_states@.contains(x)]
                #![trigger a0.contains(x)]
                (accessible_states@.contains(x) && !fully_examined_states@.contains(x)) == ((
                a0.contains(x) && !f0.contains(x)) || x == cur),
            h0.len() <= heights@.len(),
            (cur as int) < heights@.len(),
            forall|x: usize| #[trigger]
                a0.contains(x) ==> height_at(heights@, x) == height_at(h0, x),
            height_cur_state == succ_height(heights@, trs@, i as int),
            0 <= height_cur_state <= fully_examined_states@.len(),
            forall|j: int| 0 <= j < i ==> accessible_states@.contains(#[trigger] trs@[j].nextstate),
            cycle_free_from(fst, cur) ==> forall|j: int|
                0 <= j < i ==> fully_examined_states@.contains(#[trigger] trs@[j].nextstate),
            forall|x: usize| #[trigger] a0.contains(x) && !f0.contains(x) ==> reaches(g, x, cur),
            forall|x: usize| #[trigger] accessible_states@.contains(x) ==> a0.contains(x) || reaches(g, cur, x),
            heights@.len() == h0.len() || (accessible_states@.contains((heights@.len() - 1) as usize) && !a0.contains(
                (heights@.len() - 1) as usize,
            )),
        decreases trs@.len() - i,
    {
        let nextstate = trs[i].nextstate;
        let ghost acc_b = accessible_states@;
        let ghost full_b = fully_examined_states@;
        let ghost h_b = heights@;
        proof {
            assert(trs@[i as int] == fst.trs_at(cur)[i as int]);
            assert((nextstate as int) < fst.n());
            lemma_succ_edge(*fst, cur, nextstate);
            assert(edge(g, cur, nextstate));
        }
        if !accessible_states.contains(&nextstate) {
            proof {
                assert forall|x: usize| #[trigger] acc_b.contains(x) && !full_b.contains(x) implies reaches(g, x, nextstate) by {
                    if x == cur {
                        crate::graph::lemma_reaches_refl(g, cur);
                    } else {
                        assert(a0.contains(x) && !f0.contains(x));
                    }
                    crate::graph::lemma_reaches_step(g, x, cur, nextstate);
                }
                lemma_bounded_set_len(acc_b, h_b.len() as int);
                assert(a1.subset_of(acc_b));
                vstd::set_lib::lemma_len_subset(a1, acc_b);
                assert(a1.len() == a0.len() + 1);
            }
            depth_visit(fst, nextstate, accessible_states, fully_examined_states, heights);
            proof {
                assert forall|x: usize| #[trigger] accessible_states@.contains(x) implies a0.contains(x) || reaches(g, cur, x) by {
                    if !acc_b.contains(x) {
                        lemma_reaches_prepend(g, cur, nextstate, x);
                    }
                }
                lemma_succ_height_frame(heights@, h_b, trs@, i as int);
                lemma_bounded_set_len(accessible_states@, heights@.len() as int);
                vstd::set_lib::lemma_len_subset(full_b, fully_examined_states@);
            }
        }
        proof {
            lemma_bounded_set_len(accessible_states@, heights@.len() as int);
            vstd::set_lib::lemma_len_subset(fully_examined_states@, accessible_states@);
            assert(accessible_states@.contains(nextstate));
            assert((nextstate as int) < heights@.len());
        }
        let c = 1 + heights[nextstate];
        if c > height_cur_state {
            height_cur_state = c;
        }
        proof {
            if cycle_free_from(fst, cur) {
                if !fully_examined_states@.contains(nextstate) {
                    crate::graph::lemma_reaches_refl(g, cur);
                    if nextstate != cur {
                        assert(a0.contains(nextstate) && !f0.contains(nextstate));
                    }
                    assert(reaches(g, nextstate, cur));
                    assert(on_cycle(fst, cur));
                    assert(reaches(fst.succ_graph(), cur, cur));
                }
            }
        }
        i = i + 1;
    }
    let ghost a2 = accessible_states@;
    let ghost f2 = fully_examined_states@;
    let ghost h2 = heights@;
    proof {
        lemma_bounded_set_len(a2, h2.len() as int);
        vstd::set_lib::lemma_len_subset(f2, a2);
    }
    fully_examined_states.insert(cur);
    heights.set(cur, height_cur_state);
    proof {
        let f3 = fully_examined_states@;
        let h3 = heights@;
        assert(f3 == f2.insert(cur));
        assert(f3.len() == f2.len() + 1);
        assert(h3 == h2.update(cur as int, height_cur_state));
        assert forall|x: usize| #[trigger] f2.contains(x) implies height_at(h3, x) == height_at(h2, x) by {}
        assert forall|x: usize| #[trigger] f3.contains(x) && cycle_free_from(fst, x) implies settled_height(fst, f3, h3, x) by {
            if x == cur {
                assert forall|j: int| 0 <= j < trs@.len() implies height_at(h3, (#[trigger] trs@[j]).nextstate) == height_at(h2, trs@[j].nextstate) by {
                    assert(f2.contains(trs@[j].nextstate));
                }
                lemma_succ_height_frame(h3, h2, trs@, trs@.len() as int);
            } else {
                assert(settled_height(fst, f2, h2, x));
                assert forall|j: int| 0 <= j < fst.trs_at(x).len() implies height_at(h3, (#[trigger] fst.trs_at(x)[j]).nextstate) == height_at(h2, fst.trs_at(x)[j].nextstate) by {
                    assert(f2.contains(fst.trs_at(x)[j].nextstate));
                }
                lemma_succ_height_frame(h3, h2, fst.trs_at(x), fst.trs_at(x).len() as int);
            }
        }
        assert(f3.subset_of(a2));
        assert(forall|x: usize| #[trigger] a2.contains(x) ==> (x as int) < h3.len());
        assert(forall|x: usize| (x as int) < h3.len() && #[trigger] f3.contains(x) ==> 0 <= height_at(h3, x) < f3.len());
        assert forall|x: usize| (x as int) < h3.len() && !f3.contains(x) implies #[trigger] height_at(h3, x) == -1 by {
            assert(height_at(h2, x) == -1);
        }
        assert forall|x: usize, j: int| f3.contains(x) && 0 <= j < fst.trs_at(x).len() implies a2.contains(#[trigger] fst.trs_at(x)[j].nextstate) by {
            if x == cur {
                assert(trs@[j] == fst.trs_at(x)[j]);
            }
        }
        assert(depth_search_state(fst, a2, f3, h3));
    }
}

} // verus!
