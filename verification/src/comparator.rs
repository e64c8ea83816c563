use vstd::prelude::*;

use std::cmp::Ordering;

use crate::acyclic::lemma_state_sig_eq;
use crate::acyclic::state_sig;
use crate::fst::Tr;
use crate::fst::VectorFst;
use crate::fst::WEIGHT_ZERO;
use crate::partition::Partition;

verus! {

/// The final weight of state `s`, `Zero` for a non-final state.
pub open spec fn final_code(fst: &VectorFst, s: usize) -> u64 {
    match fst.final_at(s) {
        Some(w) => w,
        None => WEIGHT_ZERO,
    }
}

/// The pairs (input label, class of the destination) of `tx` come before
/// those of `ty` in lexicographic order, comparing from position `i` on and
/// stopping at the end of the shorter sequence.
pub open spec fn trs_less_from(p: Partition, tx: Seq<Tr>, ty: Seq<Tr>, i: int) -> bool
    decreases tx.len() - i,
{
    if i < 0 || i >= tx.len() || i >= ty.len() {
        false
    } else if tx[i].ilabel < ty[i].ilabel {
        true
    } else if tx[i].ilabel > ty[i].ilabel {
        false
    } else if p.class_at(tx[i].nextstate) < p.class_at(ty[i].nextstate) {
        true
    } else if p.class_at(tx[i].nextstate) > p.class_at(ty[i].nextstate) {
        false
    } else {
        trs_less_from(p, tx, ty, i + 1)
    }
}

/// State `x` comes before state `y`: by final weight, then by number of
/// transitions, then by the pairs (input label, class of the destination)
/// of their transitions in order.
pub open spec fn state_less(fst: &VectorFst, p: Partition, x: usize, y: usize) -> bool {
    let fx = final_code(fst, x);
    let fy = final_code(fst, y);
    if fx < fy {
        true
    } else if fx > fy {
        false
    } else if fst.trs_at(x).len() < fst.trs_at(y).len() {
        true
    } else if fst.trs_at(x).len() > fst.trs_at(y).len() {
        false
    } else {
        trs_less_from(p, fst.trs_at(x), fst.trs_at(y), 0)
    }
}

/// The order that `StateComparator::compare` gives two states.
pub open spec fn state_order(fst: &VectorFst, p: Partition, x: usize, y: usize) -> Ordering {
    if x == y {
        Ordering::Equal
    } else if !state_less(fst, p, x, y) && !state_less(fst, p, y, x) {
        Ordering::Equal
    } else if state_less(fst, p, x, y) {
        Ordering::Less
    } else {
        Ordering::Greater
    }
}

/// Orders the states of an fst by their final weight and by their
/// transitions, where destinations are told apart by their class in a
/// partition of the states.
pub struct StateComparator<'a> {
    pub fst: &'a VectorFst,
    pub partition: Partition,
}

impl<'a> StateComparator<'a> {
    /// The partition is one of the states of the fst.
    pub open spec fn well_built(&self) -> bool {
        &&& self.fst.wf()
        &&& self.partition.wf()
        &&& self.partition.len() == self.fst.n()
    }

    /// Whether state `x` comes strictly before state `y`; `None` when one of
    /// them is not a state of the fst.
    fn do_compare(&self, x: usize, y: usize) -> (r: Option<bool>)
        requires
            self.well_built(),
        ensures
            r is Some <==> self.fst.has_state(x) && self.fst.has_state(y),
            r matches Some(b) ==> b == state_less(self.fst, self.partition, x, y),
    {
        if x >= self.fst.num_states() || y >= self.fst.num_states() {
            return None;
        }
        Some(self.do_compare_states(x, y))
    }

    /// Whether state `x` comes strictly before state `y`, both states of
    /// the fst.
    fn do_compare_states(&self, x: usize, y: usize) -> (r: bool)
        requires
            self.well_built(),
            self.fst.has_state(x),
            self.fst.has_state(y),
        ensures
            r == state_less(self.fst, self.partition, x, y),
    {
        let xfinal = match self.fst.final_weight(x) {
            Some(w) => w,
            None => WEIGHT_ZERO,
        };
        let yfinal = match self.fst.final_weight(y) {
            Some(w) => w,
            None => WEIGHT_ZERO,
        };
        if xfinal < yfinal {
            return true;
        } else if xfinal > yfinal {
            return false;
        }
        if self.fst.num_trs(x) < self.fst.num_trs(y) {
            return true;
        }
        if self.fst.num_trs(x) > self.fst.num_trs(y) {
            return false;
        }
        let it_x = self.fst.get_trs(x);
        let it_y = self.fst.get_trs(y);
        let ghost tx = it_x@;
        let ghost ty = it_y@;
        let ghost p = self.partition;
        let mut i: usize = 0;
        while i < it_x.len()
            invariant
                tx == self.fst.trs_at(x),
                ty == self.fst.trs_at(y),
                it_x@ == tx,
                it_y@ == ty,
                tx.len() == ty.len(),
                i <= tx.len(),
                p == self.partition,
                self.well_built(),
                self.fst.has_state(x),
                self.fst.has_state(y),
                final_code(self.fst, x) == final_code(self.fst, y),
                trs_less_from(p, tx, ty, 0) == trs_less_from(p, tx, ty, i as int),
            decreases tx.len() - i,
        {
            let arc1 = it_x[i];
            let arc2 = it_y[i];
            proof {
                assert(self.fst.trs_of(x as int)[i as int] == arc1);
                assert(self.fst.trs_of(y as int)[i as int] == arc2);
                assert((arc1.nextstate as int) < self.fst.n());
                assert((arc2.nextstate as int) < self.fst.n());
            }
            if arc1.ilabel < arc2.ilabel {
                return true;
            }
            if arc1.ilabel > arc2.ilabel {
                return false;
            }
            let id_1 = self.partition.get_class_id(arc1.nextstate);
            let id_2 = self.partition.get_class_id(arc2.nextstate);
            if id_1 < id_2 {
                return true;
            }
            if id_1 > id_2 {
                return false;
            }
            i = i + 1;
        }
        false
    }

    /// Compares states `x` and `y` (`Equal` when neither comes first, and
    /// for a state with itself); `None` when `x` and `y` differ and one of
    /// them is not a state of the fst.
    pub fn compare(&self, x: usize, y: usize) -> (r: Option<Ordering>)
        requires
            self.well_built(),
        ensures
            x == y ==> r == Some(Ordering::Equal),
            x != y ==> (r is Some <==> self.fst.has_state(x) && self.fst.has_state(y)),
            r matches Some(o) ==> o == state_order(self.fst, self.partition, x, y),
    {
        if x == y {
            return Some(Ordering::Equal);
        }
        let x_y = match self.do_compare(x, y) {
            Some(b) => b,
            None => return None,
        };
        let y_x = match self.do_compare(y, x) {
            Some(b) => b,
            None => return None,
        };
        if !x_y && !y_x {
            return Some(Ordering::Equal);
        }
        if x_y {
            Some(Ordering::Less)
        } else {
            Some(Ordering::Greater)
        }
    }
}

/// First factor of the input-label hash.
pub const HASH_P1: usize = 7603usize;

/// Seed of the input-label hash.
pub const HASH_P2: usize = 433024223usize;

/// The hash value and the last hashed input label after the first `n`
/// transitions of `trs`: each run of equal input labels contributes once,
/// as `hash * HASH_P1 + label` in wrapping arithmetic.
pub open spec fn ilabel_hash_prefix(trs: Seq<Tr>, n: int) -> (usize, usize)
    decreases n,
{
    if n <= 0 {
        (HASH_P2, usize::MAX)
    } else {
        let prev = ilabel_hash_prefix(trs, n - 1);
        let l = trs[n - 1].ilabel;
        if l != prev.1 {
            (
                vstd::wrapping::usize_specs::wrapping_add(
                    vstd::wrapping::usize_specs::wrapping_mul(HASH_P1, prev.0),
                    l,
                ),
                l,
            )
        } else {
            prev
        }
    }
}

/// The hash of the input labels of a sequence of transitions.
pub open spec fn ilabel_hash(trs: Seq<Tr>) -> usize {
    ilabel_hash_prefix(trs, trs.len() as int).0
}

/// Hashes a state by the input labels of its transitions.
pub struct StateIlabelHasher<'a> {
    pub fst: &'a VectorFst,
}

impl<'a> StateIlabelHasher<'a> {
    /// A hasher over the states of `fst`.
    pub fn new(fst: &'a VectorFst) -> (r: Self)
        ensures
            r.fst == fst,
    {
        StateIlabelHasher { fst }
    }

    /// The hash of the input labels of the transitions leaving `state`.
    pub fn get_hash(&self, state: usize) -> (r: usize)
        requires
            self.fst.has_state(state),
        ensures
            r == ilabel_hash(self.fst.trs_at(state)),
    {
        let p1: usize = 7603;
        let p2: usize = 433024223;
        let mut result: usize = p2;
        let mut current_ilabel: usize = usize::MAX;
        let trs = self.fst.get_trs(state);
        let mut i: usize = 0;
        while i < trs.len()
            invariant
                i <= trs@.len(),
                p1 == HASH_P1,
                (result, current_ilabel) == ilabel_hash_prefix(trs@, i as int),
            decreases trs@.len() - i,
        {
            let this_label = trs[i].ilabel;
            if this_label != current_ilabel {
                result = p1.wrapping_mul(result).wrapping_add(this_label);
                current_ilabel = this_label;
            }
            i = i + 1;
        }
        result
    }
}

/// From position `i` on, neither sequence comes first exactly when their
/// pairs (input label, destination class) agree.
pub proof fn lemma_trs_less_neither(p: Partition, tx: Seq<Tr>, ty: Seq<Tr>, i: int)
    requires
        tx.len() == ty.len(),
        0 <= i <= tx.len(),
    ensures
        (!trs_less_from(p, tx, ty, i) && !trs_less_from(p, ty, tx, i)) <==> (forall|j: int|
            i <= j < tx.len() ==> (#[trigger] tx[j]).ilabel == ty[j].ilabel && p.class_at(tx[j].nextstate)
                == p.class_at(ty[j].nextstate)),
    decreases tx.len() - i,
{
    if i < tx.len() {
        lemma_trs_less_neither(p, tx, ty, i + 1);
    }
}

/// The order on transition sequences is asymmetric.
pub proof fn lemma_trs_less_asym(p: Partition, tx: Seq<Tr>, ty: Seq<Tr>, i: int)
    requires
        tx.len() == ty.len(),
        0 <= i,
    ensures
        trs_less_from(p, tx, ty, i) ==> !trs_less_from(p, ty, tx, i),
    decreases tx.len() - i,
{
    if i < tx.len() {
        lemma_trs_less_asym(p, tx, ty, i + 1);
    }
}

/// `compare` finds two states equal exactly when they are the same state
/// or have the same signature: the same final weight, the same number of
/// transitions, and pairwise the same input labels and destination classes.
pub proof fn lemma_compare_equal(fst: &VectorFst, p: Partition, x: usize, y: usize)
    requires
        fst.wf(),
        p.wf(),
        p.len() == fst.n(),
        fst.has_state(x),
        fst.has_state(y),
    ensures
        (state_order(fst, p, x, y) == Ordering::Equal) <==> (x == y || state_sig(fst, p, x) == state_sig(
            fst,
            p,
            y,
        )),
{
    lemma_state_sig_eq(fst, p, x, y);
    if fst.trs_at(x).len() == fst.trs_at(y).len() {
        lemma_trs_less_neither(p, fst.trs_at(x), fst.trs_at(y), 0);
    }
}

/// `compare` is antisymmetric: `x` comes before `y` exactly when `y` comes
/// after `x`, and they are equal both ways or neither.
pub proof fn lemma_compare_antisymmetric(fst: &VectorFst, p: Partition, x: usize, y: usize)
    ensures
        (state_order(fst, p, x, y) == Ordering::Less) <==> (state_order(fst, p, y, x) == Ordering::Greater),
        (state_order(fst, p, x, y) == Ordering::Equal) <==> (state_order(fst, p, y, x) == Ordering::Equal),
{
    if fst.trs_at(x).len() == fst.trs_at(y).len() {
        lemma_trs_less_asym(p, fst.trs_at(x), fst.trs_at(y), 0);
        lemma_trs_less_asym(p, fst.trs_at(y), fst.trs_at(x), 0);
    }
}

/// The hash of a state depends on the input labels of its transitions only.
pub proof fn lemma_ilabel_hash_labels(t1: Seq<Tr>, t2: Seq<Tr>, n: int)
    requires
        0 <= n <= t1.len(),
        n <= t2.len(),
        forall|i: int| 0 <= i < n ==> (#[trigger] t1[i]).ilabel == t2[i].ilabel,
    ensures
        ilabel_hash_prefix(t1, n) == ilabel_hash_prefix(t2, n),
    decreases n,
{
    if n > 0 {
        lemma_ilabel_hash_labels(t1, t2, n - 1);
        assert(t1[n - 1].ilabel == t2[n - 1].ilabel);
    }
}

/// The order on transition sequences of one length is transitive.
pub proof fn lemma_trs_less_trans(p: Partition, ta: Seq<Tr>, tb: Seq<Tr>, tc: Seq<Tr>, i: int)
    requires
        ta.len() == tb.len(),
        tb.len() == tc.len(),
        0 <= i,
        trs_less_from(p, ta, tb, i),
        trs_less_from(p, tb, tc, i),
    ensures
        trs_less_from(p, ta, tc, i),
    decreases ta.len() - i,
{
    if i < ta.len() && ta[i].ilabel == tb[i].ilabel && tb[i].ilabel == tc[i].ilabel && p.class_at(ta[i].nextstate)
        == p.class_at(tb[i].nextstate) && p.class_at(tb[i].nextstate) == p.class_at(tc[i].nextstate) {
        lemma_trs_less_trans(p, ta, tb, tc, i + 1);
    }
}

/// `compare` orders states transitively: `Less` twice gives `Less`, and
/// `Equal` twice gives `Equal`.
pub proof fn lemma_compare_transitive(fst: &VectorFst, p: Partition, x: usize, y: usize, z: usize)
    requires
        fst.wf(),
        p.wf(),
        p.len() == fst.n(),
        fst.has_state(x),
        fst.has_state(y),
        fst.has_state(z),
    ensures
        state_order(fst, p, x, y) == Ordering::Less && state_order(fst, p, y, z) == Ordering::Less ==> state_order(
            fst,
            p,
            x,
            z,
        ) == Ordering::Less,
        state_order(fst, p, x, y) == Ordering::Equal && state_order(fst, p, y, z) == Ordering::Equal ==> state_order(
            fst,
            p,
            x,
            z,
        ) == Ordering::Equal,
{
    lemma_compare_equal(fst, p, x, y);
    lemma_compare_equal(fst, p, y, z);
    lemma_compare_equal(fst, p, x, z);
    if state_less(fst, p, x, y) && state_less(fst, p, y, z) {
        let (tx, ty, tz) = (fst.trs_at(x), fst.trs_at(y), fst.trs_at(z));
        if final_code(fst, x) == final_code(fst, y) && final_code(fst, y) == final_code(fst, z) && tx.len() == ty.len()
            && ty.len() == tz.len() {
            lemma_trs_less_trans(p, tx, ty, tz, 0);
        }
        assert(state_less(fst, p, x, z));
        if x == z {
            if tx.len() == ty.len() {
                lemma_trs_less_asym(p, tx, ty, 0);
            }
        }
        if tx.len() == tz.len() {
            lemma_trs_less_asym(p, tx, tz, 0);
        }
    }
}

/// No state comes strictly before itself.
pub proof fn lemma_compare_irreflexive(fst: &VectorFst, p: Partition, x: usize)
    ensures
        !state_less(fst, p, x, x),
{
    lemma_trs_less_asym(p, fst.trs_at(x), fst.trs_at(x), 0);
}

/// A transition whose input label repeats that of the transition before it
/// leaves the hash unchanged.
pub proof fn lemma_ilabel_hash_repeat(t: Seq<Tr>, e: Tr)
    requires
        t.len() > 0,
        e.ilabel == t.last().ilabel,
    ensures
        ilabel_hash(t.push(e)) == ilabel_hash(t),
{
    let u = t.push(e);
    let n = t.len() as int;
    assert forall|i: int| 0 <= i < n implies (#[trigger] u[i]).ilabel == t[i].ilabel by {
        assert(u[i] == t[i]);
    }
    lemma_ilabel_hash_labels(u, t, n);
    assert(ilabel_hash_prefix(t, n).1 == t[n - 1].ilabel);
    assert(u[n] == e);
}

/// `(a + l) mod R` for `a` and `l` below `R`, written as one wrapping
/// addition.
proof fn lemma_wrapping_step(h: usize, l: usize)
    ensures
        vstd::wrapping::usize_specs::wrapping_add(vstd::wrapping::usize_specs::wrapping_mul(7603usize, h), l) as int
            == (7603 * h + l) % (usize::MAX as int + 1),
{
    let r = usize::MAX as int + 1;
    let a = vstd::wrapping::usize_specs::wrapping_mul(7603usize, h) as int;
    assert(a == (7603 * h) % r);
    vstd::arithmetic::div_mod::lemma_small_mod(l as nat, r as nat);
    vstd::arithmetic::div_mod::lemma_add_mod_noop(7603 * h, l as int, r);
    if a + l < r {
        vstd::arithmetic::div_mod::lemma_small_mod((a + l) as nat, r as nat);
    } else {
        vstd::arithmetic::div_mod::lemma_small_mod((a + l - r) as nat, r as nat);
        vstd::arithmetic::div_mod::lemma_mod_sub_multiples_vanish(a + l, r);
        assert(-r + (a + l) == a + l - r);
    }
}

/// The hash of a state without transitions is the seed 433024223.
pub proof fn lemma_ilabel_hash_empty()
    ensures
        ilabel_hash(Seq::<Tr>::empty()) == 433024223usize,
{
}

/// The hash of a single transition is one step `h * 7603 + label` from
/// the seed, in wrapping arithmetic; a label equal to the initial marker
/// `usize::MAX` counts as a repeat and leaves the seed.
pub proof fn lemma_ilabel_hash_first(e: Tr)
    ensures
        e.ilabel != usize::MAX ==> ilabel_hash(seq![e]) as int == (7603 * 433024223 + e.ilabel) % (usize::MAX as int + 1),
        e.ilabel == usize::MAX ==> ilabel_hash(seq![e]) == 433024223usize,
{
    let t = seq![e];
    assert(t[0] == e);
    assert(ilabel_hash_prefix(t, 0) == (433024223usize, usize::MAX));
    lemma_wrapping_step(433024223usize, e.ilabel);
}

/// A transition whose input label differs from that of the transition
/// before it moves the hash one step: `h * 7603 + label`, in wrapping
/// arithmetic.
pub proof fn lemma_ilabel_hash_step(t: Seq<Tr>, e: Tr)
    requires
        t.len() > 0,
        e.ilabel != t.last().ilabel,
    ensures
        ilabel_hash(t.push(e)) as int == (7603 * ilabel_hash(t) + e.ilabel) % (usize::MAX as int + 1),
{
    let u = t.push(e);
    let n = t.len() as int;
    assert forall|i: int| 0 <= i < n implies (#[trigger] u[i]).ilabel == t[i].ilabel by {
        assert(u[i] == t[i]);
    }
    lemma_ilabel_hash_labels(u, t, n);
    assert(ilabel_hash_prefix(t, n).1 == t[n - 1].ilabel);
    assert(u[n] == e);
    lemma_wrapping_step(ilabel_hash(t), e.ilabel);
}

/// Sequences that agree on their (input label, destination class) pairs
/// before position `i`, and at `i` have a smaller label, or the same label
/// and a smaller destination class, on the left, come first from every
/// position up to `i`.
proof fn lemma_trs_less_at(p: Partition, tx: Seq<Tr>, ty: Seq<Tr>, k: int, i: int)
    requires
        tx.len() == ty.len(),
        0 <= k <= i < tx.len(),
        forall|j: int|
            k <= j < i ==> (#[trigger] tx[j]).ilabel == ty[j].ilabel && p.class_at(tx[j].nextstate) == p.class_at(
                ty[j].nextstate,
            ),
        tx[i].ilabel < ty[i].ilabel || (tx[i].ilabel == ty[i].ilabel && p.class_at(tx[i].nextstate) < p.class_at(
            ty[i].nextstate,
        )),
    ensures
        trs_less_from(p, tx, ty, k),
    decreases i - k,
{
    if k < i {
        lemma_trs_less_at(p, tx, ty, k + 1, i);
    }
}

/// `compare` orders two different states by their fields: a final state
/// with a smaller final weight first, a final state with a weight other
/// than `Zero` before a non-final one; with equal final weights, fewer
/// transitions first; with as many transitions, by the first position
/// where the (input label, destination class) pairs differ, the smaller
/// label first, then the smaller class.
pub proof fn lemma_compare_fields(fst: &VectorFst, p: Partition, x: usize, y: usize)
    requires
        x != y,
    ensures
        (fst.final_at(x) matches Some(a) && fst.final_at(y) matches Some(b) && a < b) ==> state_order(fst, p, x, y)
            == Ordering::Less,
        (fst.final_at(x) matches Some(a) && a != WEIGHT_ZERO && fst.final_at(y) is None) ==> state_order(fst, p, x, y)
            == Ordering::Less,
        fst.final_at(x) == fst.final_at(y) && fst.trs_at(x).len() < fst.trs_at(y).len() ==> state_order(fst, p, x, y)
            == Ordering::Less,
        forall|i: int|
            #![trigger fst.trs_at(x)[i], fst.trs_at(y)[i]]
            fst.final_at(x) == fst.final_at(y) && fst.trs_at(x).len() == fst.trs_at(y).len() && 0 <= i < fst.trs_at(x).len()
                && (forall|j: int|
                0 <= j < i ==> (#[trigger] fst.trs_at(x)[j]).ilabel == fst.trs_at(y)[j].ilabel && p.class_at(
                    fst.trs_at(x)[j].nextstate,
                ) == p.class_at(fst.trs_at(y)[j].nextstate)) && (fst.trs_at(x)[i].ilabel < fst.trs_at(y)[i].ilabel || (
            fst.trs_at(x)[i].ilabel == fst.trs_at(y)[i].ilabel && p.class_at(fst.trs_at(x)[i].nextstate) < p.class_at(
                fst.trs_at(y)[i].nextstate,
            ))) ==> state_order(fst, p, x, y) == Ordering::Less,
{
    let tx = fst.trs_at(x);
    let ty = fst.trs_at(y);
    if tx.len() == ty.len() {
        lemma_trs_less_asym(p, tx, ty, 0);
    }
    assert forall|i: int|
        #![trigger fst.trs_at(x)[i], fst.trs_at(y)[i]]
        fst.final_at(x) == fst.final_at(y) && tx.len() == ty.len() && 0 <= i < tx.len() && (forall|j: int|
            0 <= j < i ==> (#[trigger] tx[j]).ilabel == ty[j].ilabel && p.class_at(tx[j].nextstate) == p.class_at(
                ty[j].nextstate,
            )) && (tx[i].ilabel < ty[i].ilabel || (tx[i].ilabel == ty[i].ilabel && p.class_at(tx[i].nextstate) < p.class_at(
            ty[i].nextstate,
        ))) implies state_order(fst, p, x, y) == Ordering::Less by {
        lemma_trs_less_at(p, tx, ty, 0, i);
        lemma_trs_less_asym(p, tx, ty, 0);
    }
}

} // verus!
