use vstd::prelude::*;

use crate::graph::reaches;

verus! {

/// The semiring weight of a transition or of a final state.
///
/// Weights live in the integer tropical semiring: `⊕` is `min`, `⊗` is `+`,
/// its `One` is `WEIGHT_ONE` and its `Zero` is `WEIGHT_ZERO`.
pub type Weight = u64;

/// The neutral element of `⊗`.
pub const WEIGHT_ONE: u64 = 0u64;

/// The neutral element of `⊕` (positive infinity).
pub const WEIGHT_ZERO: u64 = 0xffff_ffff_ffff_ffffu64;

/// `w` is `One` or `Zero`.
pub open spec fn trivial_weight(w: u64) -> bool {
    w == WEIGHT_ONE || w == WEIGHT_ZERO
}

/// A transition: input label, output label, weight and destination state.
#[derive(Clone, Copy, Debug, PartialEq, Eq, Structural)]
pub struct Tr {
    pub ilabel: usize,
    pub olabel: usize,
    pub weight: u64,
    pub nextstate: usize,
}

/// A state: its final weight (`None` when the state is not final) and its
/// outgoing transitions.
#[derive(Debug)]
pub struct FstState {
    pub final_weight: Option<u64>,
    pub trs: Vec<Tr>,
}

/// A finite-state transducer stored as a vector of states.
#[derive(Debug)]
pub struct VectorFst {
    pub states: Vec<FstState>,
    pub start: Option<usize>,
}

impl VectorFst {
    /// Number of states.
    pub open spec fn n(&self) -> int {
        self.states@.len() as int
    }

    /// The transitions leaving state `s`.
    pub open spec fn trs_of(&self, s: int) -> Seq<Tr> {
        self.states@[s].trs@
    }

    /// The final weight of state `s`.
    pub open spec fn final_of(&self, s: int) -> Option<u64> {
        self.states@[s].final_weight
    }

    /// The transitions leaving state `s`.
    pub open spec fn trs_at(&self, s: usize) -> Seq<Tr> {
        self.trs_of(s as int)
    }

    /// The final weight of state `s`.
    pub open spec fn final_at(&self, s: usize) -> Option<u64> {
        self.final_of(s as int)
    }

    /// `s` is a state of the fst.
    pub open spec fn has_state(&self, s: usize) -> bool {
        (s as int) < self.n()
    }

    /// The start state is a state of the fst and every transition leads to a
    /// state of the fst.
    pub open spec fn wf(&self) -> bool {
        &&& (self.start matches Some(s) ==> (s as int) < self.n())
        &&& forall|s: int, i: int|
            0 <= s < self.n() && 0 <= i < self.trs_of(s).len() ==> (
            #[trigger] self.trs_of(s)[i]).nextstate < self.n()
    }

    /// Creates an fst with no state.
    pub fn new() -> (r: VectorFst)
        ensures
            r.n() == 0,
            r.start is None,
            r.wf(),
    {
        VectorFst { states: Vec::new(), start: None }
    }

    /// Number of states.
    pub fn num_states(&self) -> (r: usize)
        ensures
            r == self.n(),
    {
        self.states.len()
    }

    /// The successor lists of the states.
    pub open spec fn succ_graph(&self) -> Seq<Seq<usize>> {
        Seq::new(self.n() as nat, |s: int| self.trs_of(s).map_values(|t: Tr| t.nextstate))
    }

    /// State `s` can be reached from the start state.
    pub open spec fn accessible(&self, s: usize) -> bool {
        self.start matches Some(st) && reaches(self.succ_graph(), st, s)
    }

    /// A final state can be reached from state `s`.
    pub open spec fn coaccessible(&self, s: usize) -> bool {
        exists|t: usize| (t as int) < self.n() && self.final_of(t as int) is Some && #[trigger] reaches(self.succ_graph(), s, t)
    }

    /// Every state is accessible and coaccessible.
    pub open spec fn is_connected(&self) -> bool {
        forall|s: usize| (s as int) < self.n() ==> #[trigger] self.accessible(s) && self.coaccessible(s)
    }

    /// `r` ranks the states: every transition leads to a state of lower rank.
    pub open spec fn is_ranking(&self, r: spec_fn(usize) -> nat) -> bool {
        forall|s: usize, i: int|
            (s as int) < self.n() && 0 <= i < self.trs_at(s).len() ==> r(
                #[trigger] self.trs_at(s)[i].nextstate,
            ) < r(s)
    }

    /// No path of transitions leads from a state back to itself: the states
    /// can be ranked so that every transition lowers the rank.
    pub open spec fn acyclic(&self) -> bool {
        exists|r: spec_fn(usize) -> nat| #[trigger] self.is_ranking(r)
    }

    /// Every transition has the same input and output label.
    pub open spec fn is_acceptor(&self) -> bool {
        forall|s: usize, i: int|
            (s as int) < self.n() && 0 <= i < self.trs_at(s).len() ==> (#[trigger] self.trs_at(
                s,
            )[i]).ilabel == self.trs_at(s)[i].olabel
    }

    /// Every transition weight is `One`.
    pub open spec fn has_unit_weights(&self) -> bool {
        forall|s: usize, i: int|
            (s as int) < self.n() && 0 <= i < self.trs_at(s).len() ==> (#[trigger] self.trs_at(s)[i]).weight
                == WEIGHT_ONE
    }

    /// Every transition weight and every final weight is `One` or `Zero`.
    pub open spec fn is_unweighted(&self) -> bool {
        &&& forall|s: usize, i: int|
            (s as int) < self.n() && 0 <= i < self.trs_at(s).len() ==> trivial_weight(
                (#[trigger] self.trs_at(s)[i]).weight,
            )
        &&& forall|s: usize|
            (s as int) < self.n() ==> match #[trigger] self.final_at(s) {
                Some(w) => trivial_weight(w),
                None => true,
            }
    }

    /// No state has two transitions with the same input label.
    pub open spec fn is_i_deterministic(&self) -> bool {
        forall|s: usize, i: int, j: int|
            #![trigger self.trs_at(s)[i], self.trs_at(s)[j]]
            (s as int) < self.n() && 0 <= i < j < self.trs_at(s).len() ==> self.trs_at(s)[i].ilabel
                != self.trs_at(s)[j].ilabel
    }

    /// The final weight of state `s` (`None` when `s` is not final).
    pub fn final_weight(&self, s: usize) -> (r: Option<u64>)
        requires
            (s as int) < self.n(),
        ensures
            r == self.final_of(s as int),
    {
        self.states[s].final_weight
    }

    /// Whether state `s` is final.
    pub fn is_final(&self, s: usize) -> (r: bool)
        requires
            (s as int) < self.n(),
        ensures
            r == self.final_of(s as int) is Some,
    {
        self.states[s].final_weight.is_some()
    }

    /// Number of transitions leaving state `s`.
    pub fn num_trs(&self, s: usize) -> (r: usize)
        requires
            (s as int) < self.n(),
        ensures
            r == self.trs_of(s as int).len(),
    {
        self.states[s].trs.len()
    }

    /// The transitions leaving state `s`.
    pub fn get_trs(&self, s: usize) -> (r: &Vec<Tr>)
        requires
            (s as int) < self.n(),
        ensures
            r@ == self.trs_of(s as int),
    {
        &self.states[s].trs
    }

    /// The number of states fits in a `usize`.
    pub proof fn lemma_n_bound(&self)
        ensures
            self.n() <= usize::MAX,
    {
        assert(self.states@.len() == self.states.len());
    }

    /// Replaces the transitions of state `s`.
    pub fn set_trs(&mut self, s: usize, trs: Vec<Tr>)
        requires
            (s as int) < old(self).n(),
        ensures
            final(self).n() == old(self).n(),
            final(self).start == old(self).start,
            final(self).trs_at(s) == trs@,
            final(self).final_at(s) == old(self).final_at(s),
            forall|q: usize|
                q != s && (q as int) < old(self).n() ==> #[trigger] final(self).trs_at(q) == old(
                    self,
                ).trs_at(q),
            forall|q: usize|
                q != s && (q as int) < old(self).n() ==> #[trigger] final(self).final_at(q) == old(
                    self,
                ).final_at(q),
    {
        let fw = self.states[s].final_weight;
        self.states.set(s, FstState { final_weight: fw, trs });
    }

    /// Sets the start state.
    pub fn set_start(&mut self, s: usize)
        requires
            (s as int) < old(self).n(),
        ensures
            final(self).states == old(self).states,
            final(self).start == Some(s),
    {
        self.start = Some(s);
    }
}

/// A copy of a sequence of transitions.
pub fn copy_trs(trs: &Vec<Tr>) -> (r: Vec<Tr>)
    ensures
        r@ == trs@,
{
    let mut r: Vec<Tr> = Vec::new();
    let mut i: usize = 0;
    while i < trs.len()
        invariant
            i <= trs@.len(),
            r@ == trs@.subrange(0, i as int),
        decreases trs@.len() - i,
    {
        r.push(trs[i]);
        i = i + 1;
        proof {
            assert(r@ =~= trs@.subrange(0, i as int));
        }
    }
    proof {
        assert(trs@.subrange(0, trs@.len() as int) =~= trs@);
    }
    r
}

} // verus!
