use vstd::prelude::*;

use std::collections::HashMap;

use vstd::multiset::Multiset;

use crate::fst::Tr;
use crate::hopcroft::process_class;
use crate::language::bisim_partition;
use crate::stability::all_covered;
use crate::stability::class_set;
use crate::stability::covered;
use crate::stability::lemma_covered_step;
use crate::stability::lemma_stable_bisim;
use crate::stability::needs_cover;
use crate::stability::next_sup;
use crate::stability::stable_all;
use crate::stability::tr_into;
use crate::fst::VectorFst;
use crate::properties::check_i_deterministic;
use crate::stability::lemma_stable_refine;
use crate::hopcroft::ids_kept;
use crate::minimality::lang_together;
use crate::minimality::lemma_lang_together_step;
use crate::minimality::live;
use crate::minimality::pre_keys_respect_lang;
use crate::minimality::same_lang;
use crate::fst::WEIGHT_ZERO;
use crate::comparator::ilabel_hash;
use crate::comparator::StateIlabelHasher;
use crate::partition::seq_holds;
use crate::partition::Partition;
use crate::queue::LifoQueue;
use crate::tr_ops::sort_tr_vec;
use crate::tr_ops::sort_trs;

verus! {

broadcast use vstd::std_specs::hash::group_hash_axioms;

/// The transitions of `trs` (leaving state `s`) that enter state `t`,
/// reversed: each becomes a transition to `s` with the same labels and weight.
pub open spec fn rev_of(trs: Seq<Tr>, t: usize, s: usize) -> Seq<Tr>
    decreases trs.len(),
{
    if trs.len() == 0 {
        Seq::empty()
    } else {
        let r = rev_of(trs.drop_last(), t, s);
        let x = trs.last();
        if x.nextstate == t {
            r.push(Tr { ilabel: x.ilabel, olabel: x.olabel, weight: x.weight, nextstate: s })
        } else {
            r
        }
    }
}

/// The reversed transitions into state `t` from the states below `m`, in
/// the order of their sources and of their positions.
pub open spec fn pred_trs(fst: &VectorFst, t: usize, m: int) -> Seq<Tr>
    decreases m,
{
    if m <= 0 {
        Seq::empty()
    } else {
        pred_trs(fst, t, m - 1) + rev_of(fst.trs_at((m - 1) as usize), t, (m - 1) as usize)
    }
}

/// The reversed transitions of state `t`, sorted stably by input label.
pub open spec fn rev_sorted(fst: &VectorFst, t: usize) -> Seq<Tr> {
    sort_trs(pred_trs(fst, t, fst.n()), false)
}

/// The reversed transitions of every state, each list sorted stably by
/// input label: the transitions of the reverse of `fst`.
pub fn reverse_sorted(fst: &VectorFst) -> (r: Vec<Vec<Tr>>)
    requires
        fst.wf(),
    ensures
        r@.len() == fst.n(),
        forall|t: usize| (t as int) < fst.n() ==> (#[trigger] r@[t as int])@ == rev_sorted(fst, t),
{
    let n = fst.num_states();
    let mut lists: Vec<Vec<Tr>> = Vec::new();
    let mut t: usize = 0;
    while t < n
        invariant
            t <= n,
            n == fst.n(),
            lists@.len() == t,
            forall|q: int| 0 <= q < t ==> (#[trigger] lists@[q])@ == Seq::<Tr>::empty(),
        decreases n - t,
    {
        lists.push(Vec::new());
        t = t + 1;
    }
    let mut s: usize = 0;
    while s < n
        invariant
            s <= n,
            n == fst.n(),
            fst.wf(),
            lists@.len() == n,
            forall|q: usize| (q as int) < n ==> (#[trigger] lists@[q as int])@ == pred_trs(fst, q, s as int),
        decreases n - s,
    {
        let trs = fst.get_trs(s);
        let mut i: usize = 0;
        while i < trs.len()
            invariant
                s < n,
                n == fst.n(),
                fst.wf(),
                trs@ == fst.trs_at(s),
                i <= trs@.len(),
                lists@.len() == n,
                forall|q: usize|
                    (q as int) < n ==> (#[trigger] lists@[q as int])@ == pred_trs(fst, q, s as int) + rev_of(
                        trs@.take(i as int),
                        q,
                        s,
                    ),
            decreases trs@.len() - i,
        {
            let x = trs[i];
            let t = x.nextstate;
            proof {
                assert(fst.trs_at(s)[i as int] == x);
                assert((t as int) < n);
            }
            let ghost before = lists@;
            let mut v: Vec<Tr> = Vec::new();
            let mut j: usize = 0;
            while j < lists[t].len()
                invariant
                    (t as int) < n,
                    lists@ == before,
                    lists@.len() == n,
                    j <= lists@[t as int]@.len(),
                    v@ == lists@[t as int]@.take(j as int),
                decreases lists@[t as int]@.len() - j,
            {
                v.push(lists[t][j]);
                j = j + 1;
                proof {
                    assert(v@ =~= lists@[t as int]@.take(j as int));
                }
            }
            proof {
                assert(lists@[t as int]@.take(j as int) =~= lists@[t as int]@);
            }
            v.push(Tr { ilabel: x.ilabel, olabel: x.olabel, weight: x.weight, nextstate: s });
            lists.set(t, v);
            proof {
                assert(trs@.take(i + 1).drop_last() =~= trs@.take(i as int));
                assert(trs@.take(i + 1).last() == x);
                assert forall|q: usize| (q as int) < n implies (#[trigger] lists@[q as int])@ == pred_trs(fst, q, s as int)
                    + rev_of(trs@.take(i + 1), q, s) by {
                    if q == t {
                        assert(lists@[q as int]@ =~= pred_trs(fst, q, s as int) + rev_of(trs@.take(i + 1), q, s));
                    } else {
                        assert(lists@[q as int] == before[q as int]);
                    }
                }
            }
            i = i + 1;
        }
        proof {
            assert(trs@.take(trs@.len() as int) =~= trs@);
            assert forall|q: usize| (q as int) < n implies (#[trigger] lists@[q as int])@ == pred_trs(fst, q, s + 1) by {
                assert(pred_trs(fst, q, s + 1) == pred_trs(fst, q, s as int) + rev_of(fst.trs_at(s), q, s));
            }
        }
        s = s + 1;
    }
    let mut r: Vec<Vec<Tr>> = Vec::new();
    let mut t: usize = 0;
    while t < n
        invariant
            t <= n,
            n == fst.n(),
            lists@.len() == n,
            forall|q: usize| (q as int) < n ==> (#[trigger] lists@[q as int])@ == pred_trs(fst, q, n as int),
            r@.len() == t,
            forall|q: usize| (q as int) < t ==> (#[trigger] r@[q as int])@ == rev_sorted(fst, q),
        decreases n - t,
    {
        let mut v = crate::fst::copy_trs(&lists[t]);
        sort_tr_vec(&mut v, false);
        let ghost rb = r@;
        r.push(v);
        proof {
            assert forall|q: usize| (q as int) < t + 1 implies (#[trigger] r@[q as int])@ == rev_sorted(fst, q) by {
                if q < t {
                    assert(r@[q as int] == rb[q as int]);
                }
            }
        }
        t = t + 1;
    }
    r
}

/// The class key of the pre-partition: whether the state is final, and the
/// hash of its input labels.
pub open spec fn pre_key(fst: &VectorFst, x: usize) -> (bool, usize) {
    (fst.final_at(x) is Some, ilabel_hash(fst.trs_at(x)))
}

/// Number of distinct pre-partition keys among the states below `m`.
pub open spec fn first_of_key(fst: &VectorFst, x: usize) -> bool {
    forall|y: usize| y < x ==> #[trigger] pre_key(fst, y) != pre_key(fst, x)
}

/// The initial partition of the cyclic minimization: states share a class
/// exactly when they are both final or both not final and their input
/// labels hash alike.  Classes are numbered in the order in which their
/// first state comes, and every class is queued.
pub fn pre_partition(fst: &VectorFst, partition: &mut Partition, queue: &mut LifoQueue)
    requires
        fst.wf(),
        forall|s: usize| (s as int) < fst.n() ==> #[trigger] fst.final_at(s) != Some(WEIGHT_ZERO),
    ensures
        final(partition).wf(),
        final(partition).settled(),
        final(partition).nonempty(),
        final(partition).len() == fst.n(),
        forall|x: usize, y: usize|
            #![trigger final(partition).class_at(x), final(partition).class_at(y)]
            (x as int) < fst.n() && (y as int) < fst.n() ==> (final(partition).class_at(x)
                == final(partition).class_at(y) <==> pre_key(fst, x) == pre_key(fst, y)),
        forall|x: usize, y: usize|
            #![trigger final(partition).class_at(x), final(partition).class_at(y)]
            (x as int) < fst.n() && (y as int) < fst.n() && first_of_key(fst, x) && first_of_key(fst, y)
                ==> (x < y <==> final(partition).class_at(x) < final(partition).class_at(y)),
        final(queue)@ == old(queue)@ + Seq::new(final(partition).k(), |i: int| i as usize),
{
    let mut next_class: usize = 0;
    let num_states = fst.num_states();
    let mut state_to_initial_class: Vec<usize> = Vec::new();
    let hasher = StateIlabelHasher::new(fst);
    let mut hash_to_class_nonfinal: HashMap<usize, usize> = HashMap::new();
    let mut hash_to_class_final: HashMap<usize, usize> = HashMap::new();
    let mut s: usize = 0;
    while s < num_states
        invariant
            num_states == fst.n(),
            hasher.fst == fst,
            s <= num_states,
            next_class <= s,
            state_to_initial_class@.len() == s,
            forall|x: int| 0 <= x < s ==> #[trigger] state_to_initial_class@[x] < next_class,
            forall|c: int| 0 <= c < next_class ==> #[trigger] seq_holds(state_to_initial_class@, c),
            forall|x: usize, y: usize|
                #![trigger state_to_initial_class@[x as int], state_to_initial_class@[y as int]]
                x < s && y < s ==> (state_to_initial_class@[x as int] == state_to_initial_class@[y as int]
                    <==> pre_key(fst, x) == pre_key(fst, y)),
            forall|x: usize, y: usize|
                #![trigger state_to_initial_class@[x as int], state_to_initial_class@[y as int]]
                x < s && y < s && first_of_key(fst, x) && first_of_key(fst, y) ==> (x < y
                    <==> state_to_initial_class@[x as int] < state_to_initial_class@[y as int]),
            forall|hh: usize|
                #[trigger] hash_to_class_final@.contains_key(hh) <==> exists|x: usize|
                    x < s && pre_key(fst, x) == (true, hh),
            forall|hh: usize|
                #[trigger] hash_to_class_nonfinal@.contains_key(hh) <==> exists|x: usize|
                    x < s && pre_key(fst, x) == (false, hh),
            forall|x: usize|
                x < s && pre_key(fst, x).0 ==> #[trigger] hash_to_class_final@[pre_key(fst, x).1]
                    == state_to_initial_class@[x as int],
            forall|x: usize|
                x < s && !pre_key(fst, x).0 ==> #[trigger] hash_to_class_nonfinal@[pre_key(fst, x).1]
                    == state_to_initial_class@[x as int],
        decreases num_states - s,
    {
        let hsh = hasher.get_hash(s);
        let fin = fst.is_final(s);
        let ghost ids0 = state_to_initial_class@;
        let found = if fin {
            match hash_to_class_final.get(&hsh) {
                Some(c) => Some(*c),
                None => None,
            }
        } else {
            match hash_to_class_nonfinal.get(&hsh) {
                Some(c) => Some(*c),
                None => None,
            }
        };
        match found {
            Some(c) => {
                proof {
                    let x = choose|x: usize| x < s && pre_key(fst, x) == (fin, hsh);
                    if fin {
                        assert(hash_to_class_final@.contains_key(hsh));
                        assert(hash_to_class_final@[pre_key(fst, x).1] == state_to_initial_class@[x as int]);
                    } else {
                        assert(hash_to_class_nonfinal@.contains_key(hsh));
                        assert(hash_to_class_nonfinal@[pre_key(fst, x).1] == state_to_initial_class@[x as int]);
                    }
                    assert(state_to_initial_class@[x as int] == c);
                }
                state_to_initial_class.push(c);
                proof {
                    let ids = state_to_initial_class@;
                    let x0 = choose|x: usize| x < s && pre_key(fst, x) == (fin, hsh);
                    assert(!first_of_key(fst, s)) by {
                        assert(pre_key(fst, x0) == pre_key(fst, s));
                    }
                    assert forall|c2: int| 0 <= c2 < next_class implies #[trigger] seq_holds(ids, c2) by {
                        assert(seq_holds(ids0, c2));
                        let e = choose|e: int| 0 <= e < ids0.len() && ids0[e] == c2;
                        assert(ids[e] == c2);
                    }
                    assert forall|x: usize, y: usize| x < s + 1 && y < s + 1 implies (#[trigger] ids[x as int] == #[trigger] ids[y as int]
                        <==> pre_key(fst, x) == pre_key(fst, y)) by {
                        if x == s && y < s {
                            assert(ids[x0 as int] == c);
                        } else if y == s && x < s {
                            assert(ids[x0 as int] == c);
                        }
                    }
                }
            },
            None => {
                if fin {
                    hash_to_class_final.insert(hsh, next_class);
                } else {
                    hash_to_class_nonfinal.insert(hsh, next_class);
                }
                state_to_initial_class.push(next_class);
                proof {
                    let ids = state_to_initial_class@;
                    assert(first_of_key(fst, s));
                    assert forall|c2: int| 0 <= c2 < next_class + 1 implies #[trigger] seq_holds(ids, c2) by {
                        if c2 < next_class {
                            assert(seq_holds(ids0, c2));
                            let e = choose|e: int| 0 <= e < ids0.len() && ids0[e] == c2;
                            assert(ids[e] == c2);
                        } else {
                            assert(ids[s as int] == c2);
                        }
                    }
                    assert forall|hh: usize| #[trigger] hash_to_class_final@.contains_key(hh) <==> exists|x: usize|
                        x < s + 1 && pre_key(fst, x) == (true, hh) by {
                        if exists|x: usize| x < s + 1 && pre_key(fst, x) == (true, hh) {
                            let x = choose|x: usize| x < s + 1 && pre_key(fst, x) == (true, hh);
                            if x < s {
                                assert(exists|x2: usize| x2 < s && pre_key(fst, x2) == (true, hh));
                            }
                        }
                        if hash_to_class_final@.contains_key(hh) && !(fin && hh == hsh) {
                            let x = choose|x: usize| x < s && pre_key(fst, x) == (true, hh);
                            assert(x < s + 1);
                        }
                    }
                    assert forall|hh: usize| #[trigger] hash_to_class_nonfinal@.contains_key(hh) <==> exists|x: usize|
                        x < s + 1 && pre_key(fst, x) == (false, hh) by {
                        if exists|x: usize| x < s + 1 && pre_key(fst, x) == (false, hh) {
                            let x = choose|x: usize| x < s + 1 && pre_key(fst, x) == (false, hh);
                            if x < s {
                                assert(exists|x2: usize| x2 < s && pre_key(fst, x2) == (false, hh));
                            }
                        }
                        if hash_to_class_nonfinal@.contains_key(hh) && !(!fin && hh == hsh) {
                            let x = choose|x: usize| x < s && pre_key(fst, x) == (false, hh);
                            assert(x < s + 1);
                        }
                    }
                    assert forall|x: usize| x < s + 1 && pre_key(fst, x).0 implies #[trigger] hash_to_class_final@[pre_key(fst, x).1]
                        == ids[x as int] by {
                        if x < s && fin && pre_key(fst, x).1 == hsh {
                            assert(hash_to_class_final@.contains_key(hsh) == false);
                        }
                    }
                    assert forall|x: usize| x < s + 1 && !pre_key(fst, x).0 implies #[trigger] hash_to_class_nonfinal@[pre_key(fst, x).1]
                        == ids[x as int] by {
                        if x < s && !fin && pre_key(fst, x).1 == hsh {
                            assert(hash_to_class_nonfinal@.contains_key(hsh) == false);
                        }
                    }
                    assert forall|x: usize, y: usize| x < s + 1 && y < s + 1 implies (#[trigger] ids[x as int] == #[trigger] ids[y as int]
                        <==> pre_key(fst, x) == pre_key(fst, y)) by {
                        if x == s && y < s {
                            if pre_key(fst, y) == pre_key(fst, s) {
                                if fin {
                                    assert(hash_to_class_final@.contains_key(hsh));
                                } else {
                                    assert(hash_to_class_nonfinal@.contains_key(hsh));
                                }
                            }
                        } else if y == s && x < s {
                            if pre_key(fst, x) == pre_key(fst, s) {
                                if fin {
                                    assert(hash_to_class_final@.contains_key(hsh));
                                } else {
                                    assert(hash_to_class_nonfinal@.contains_key(hsh));
                                }
                            }
                        }
                    }
                }
                next_class = next_class + 1;
            },
        }
        s = s + 1;
    }
    let ghost ids = state_to_initial_class@;
    *partition = Partition::from_class_ids(&state_to_initial_class, next_class);
    let ghost q0 = queue@;
    let mut c: usize = 0;
    while c < next_class
        invariant
            c <= next_class,
            queue@ == q0 + Seq::new(c as nat, |i: int| i as usize),
        decreases next_class - c,
    {
        queue.enqueue(c);
        c = c + 1;
        proof {
            assert(queue@ =~= q0 + Seq::new(c as nat, |i: int| i as usize));
        }
    }
    proof {
        let p = *partition;
        assert(num_states == fst.states.len());
        assert forall|x: usize| (x as int) < fst.n() implies #[trigger] p.class_at(x) == ids[x as int] by {
            assert(p.class_of(x as int) == ids[x as int]);
        }
    }
}

/// Every transition of `s` leads below `n`.
pub open spec fn targets_below(s: Seq<Tr>, n: int) -> bool {
    forall|i: int| 0 <= i < s.len() ==> (#[trigger] s[i]).nextstate < n
}

/// Sorting keeps the destinations.
pub proof fn lemma_insert_sorted_targets(r: Seq<Tr>, x: Tr, full: bool, n: int)
    requires
        targets_below(r, n),
        x.nextstate < n,
    ensures
        targets_below(crate::tr_ops::insert_sorted(r, x, full), n),
        crate::tr_ops::insert_sorted(r, x, full).len() == r.len() + 1,
    decreases r.len(),
{
    if r.len() > 0 && crate::tr_ops::tr_key_lt(x, r.last(), full) {
        let u = r.drop_last();
        assert(targets_below(u, n)) by {
            assert forall|i: int| 0 <= i < u.len() implies (#[trigger] u[i]).nextstate < n by {
                assert(u[i] == r[i]);
            }
        }
        lemma_insert_sorted_targets(u, x, full, n);
        assert(r.last() == r[r.len() - 1]);
    }
}

/// Sorting keeps the destinations.
pub proof fn lemma_sort_targets(s: Seq<Tr>, full: bool, n: int)
    requires
        targets_below(s, n),
    ensures
        targets_below(sort_trs(s, full), n),
        sort_trs(s, full).len() == s.len(),
    decreases s.len(),
{
    if s.len() > 0 {
        let u = s.drop_last();
        assert(targets_below(u, n)) by {
            assert forall|i: int| 0 <= i < u.len() implies (#[trigger] u[i]).nextstate < n by {
                assert(u[i] == s[i]);
            }
        }
        lemma_sort_targets(u, full, n);
        assert(s.last() == s[s.len() - 1]);
        lemma_insert_sorted_targets(sort_trs(u, full), s.last(), full, n);
    }
}

/// The reversed transitions of the transitions of `s` lead to `s`.
pub proof fn lemma_rev_of_targets(trs: Seq<Tr>, t: usize, s: usize)
    ensures
        targets_below(rev_of(trs, t, s), s + 1),
    decreases trs.len(),
{
    if trs.len() > 0 {
        lemma_rev_of_targets(trs.drop_last(), t, s);
        let r = rev_of(trs.drop_last(), t, s);
        let x = trs.last();
        if x.nextstate == t {
            let q = r.push(Tr { ilabel: x.ilabel, olabel: x.olabel, weight: x.weight, nextstate: s });
            assert forall|i: int| 0 <= i < q.len() implies (#[trigger] q[i]).nextstate < s + 1 by {
                if i < r.len() {
                    assert(q[i] == r[i]);
                }
            }
        }
    }
}

/// The reversed transitions into a state lead to states below `m`.
pub proof fn lemma_pred_targets(fst: &VectorFst, t: usize, m: int)
    requires
        m <= fst.n(),
    ensures
        targets_below(pred_trs(fst, t, m), m),
    decreases m,
{
    if m > 0 {
        lemma_pred_targets(fst, t, m - 1);
        let a = pred_trs(fst, t, m - 1);
        let b = rev_of(fst.trs_at((m - 1) as usize), t, (m - 1) as usize);
        lemma_rev_of_targets(fst.trs_at((m - 1) as usize), t, (m - 1) as usize);
        assert forall|i: int| 0 <= i < (a + b).len() implies (#[trigger] (a + b)[i]).nextstate < m by {
            if i < a.len() {
                assert((a + b)[i] == a[i]);
            } else {
                assert((a + b)[i] == b[i - a.len()]);
            }
        }
    }
}

/// A cursor over a sequence of transitions.
#[derive(Clone, Copy)]
pub struct TrsIterCollected<'a> {
    pub idx: usize,
    pub trs: &'a Vec<Tr>,
}

impl<'a> TrsIterCollected<'a> {
    /// The transition under the cursor, if any.
    pub fn peek(&self) -> (r: Option<&Tr>)
        ensures
            self.idx < self.trs@.len() ==> r == Some(&self.trs@[self.idx as int]),
            self.idx >= self.trs@.len() ==> r is None,
    {
        if self.idx < self.trs.len() {
            Some(&self.trs[self.idx])
        } else {
            None
        }
    }

    /// Whether the cursor is past the last transition.
    pub fn done(&self) -> (r: bool)
        ensures
            r == (self.idx >= self.trs@.len()),
    {
        self.idx >= self.trs.len()
    }

    /// Moves the cursor to the next transition.
    pub fn next(&mut self)
        requires
            old(self).idx < usize::MAX,
        ensures
            final(self).idx == old(self).idx + 1,
            final(self).trs == old(self).trs,
    {
        self.idx = self.idx + 1;
    }
}

/// The heap entry of the cursor at position `p`: the input label under
/// the cursor, the position and the index.
pub open spec fn iter_item(it: TrsIterCollected, p: int) -> (usize, usize, usize) {
    (it.trs@[it.idx as int].ilabel, p as usize, it.idx)
}

/// The heap entries of the first `m` cursors that are not done.
pub open spec fn items_of(its: Seq<TrsIterCollected>, m: int) -> Multiset<(usize, usize, usize)>
    decreases m,
{
    if m <= 0 {
        Multiset::empty()
    } else {
        let rest = items_of(its, m - 1);
        if its[m - 1].idx < its[m - 1].trs@.len() {
            rest.insert(iter_item(its[m - 1], m - 1))
        } else {
            rest
        }
    }
}

/// The transitions still ahead of the first `m` cursors.
pub open spec fn rem_of(its: Seq<TrsIterCollected>, m: int) -> nat
    decreases m,
{
    if m <= 0 {
        0
    } else {
        rem_of(its, m - 1) + if its[m - 1].idx <= its[m - 1].trs@.len() {
            (its[m - 1].trs@.len() - its[m - 1].idx) as nat
        } else {
            0nat
        }
    }
}

/// A heap entry belongs to a cursor that is not done.
pub proof fn lemma_items_member(its: Seq<TrsIterCollected>, m: int, x: (usize, usize, usize))
    requires
        items_of(its, m).contains(x),
        m <= usize::MAX,
    ensures
        (x.1 as int) < m,
        its[x.1 as int].idx < its[x.1 as int].trs@.len(),
        x == iter_item(its[x.1 as int], x.1 as int),
    decreases m,
{
    if m > 0 {
        let rest = items_of(its, m - 1);
        if its[m - 1].idx < its[m - 1].trs@.len() && x == iter_item(its[m - 1], m - 1) {
        } else {
            assert(rest.contains(x));
            lemma_items_member(its, m - 1, x);
        }
    }
}

/// The entries of the cursors below `m` depend on those cursors only.
pub proof fn lemma_items_frame(its: Seq<TrsIterCollected>, its2: Seq<TrsIterCollected>, m: int)
    requires
        forall|p: int| 0 <= p < m ==> #[trigger] its2[p] == its[p],
    ensures
        items_of(its2, m) == items_of(its, m),
        rem_of(its2, m) == rem_of(its, m),
    decreases m,
{
    if m > 0 {
        lemma_items_frame(its, its2, m - 1);
    }
}

/// Advancing the cursor at position `q` replaces its entry by the next one
/// and leaves one transition fewer ahead.
pub proof fn lemma_items_advance(its: Seq<TrsIterCollected>, q: int, it2: TrsIterCollected, m: int)
    requires
        0 <= q < m <= its.len(),
        m <= usize::MAX,
        its[q].idx < its[q].trs@.len(),
        it2.trs == its[q].trs,
        it2.idx == its[q].idx + 1,
    ensures
        items_of(its.update(q, it2), m) == if it2.idx < it2.trs@.len() {
            items_of(its, m).remove(iter_item(its[q], q)).insert(iter_item(it2, q))
        } else {
            items_of(its, m).remove(iter_item(its[q], q))
        },
        rem_of(its.update(q, it2), m) + 1 == rem_of(its, m),
    decreases m,
{
    let its2 = its.update(q, it2);
    if m - 1 > q {
        lemma_items_advance(its, q, it2, m - 1);
        assert(its2[m - 1] == its[m - 1]);
        lemma_items_member_or_not(its, q, m - 1);
        if its[m - 1].idx < its[m - 1].trs@.len() {
            let y = iter_item(its[m - 1], m - 1);
            let a = items_of(its, m - 1);
            assert(y != iter_item(its[q], q));
            if it2.idx < it2.trs@.len() {
                assert(a.remove(iter_item(its[q], q)).insert(iter_item(it2, q)).insert(y) =~= a.insert(y).remove(
                    iter_item(its[q], q),
                ).insert(iter_item(it2, q)));
            } else {
                assert(a.remove(iter_item(its[q], q)).insert(y) =~= a.insert(y).remove(iter_item(its[q], q)));
            }
        }
    } else {
        assert forall|p: int| 0 <= p < q implies #[trigger] its2[p] == its[p] by {}
        lemma_items_frame(its, its2, q);
        let a = items_of(its, q);
        assert(a.insert(iter_item(its[q], q)).remove(iter_item(its[q], q)) =~= a);
    }
}

/// The entry of the cursor at position `q` is in the entries of the first
/// `m > q` cursors.
pub proof fn lemma_items_member_or_not(its: Seq<TrsIterCollected>, q: int, m: int)
    requires
        0 <= q < m,
        its[q].idx < its[q].trs@.len(),
    ensures
        items_of(its, m).contains(iter_item(its[q], q)),
    decreases m,
{
    if m - 1 > q {
        lemma_items_member_or_not(its, q, m - 1);
    }
}

/// A partition whose classes only split keeps states apart that were apart.
pub open spec fn finer_than(p: Partition, q: Partition, n: int) -> bool {
    forall|x: usize, y: usize|
        #![trigger p.class_at(x), p.class_at(y)]
        (x as int) < n && (y as int) < n && p.class_at(x) == p.class_at(y) ==> q.class_at(x) == q.class_at(y)
}

/// `finalize_split` only splits classes.
pub proof fn lemma_finalize_finer(p0: Partition, p1: Partition)
    requires
        p0.wf(),
        forall|x: usize|
            (x as int) < p0.len() && !p0.moves(x) ==> #[trigger] p1.class_of(x as int) == p0.class_of(x as int),
        forall|x: usize|
            (x as int) < p0.len() && p0.moves(x) ==> #[trigger] p1.class_of(x as int) >= p0.k(),
        forall|x: usize, z: usize|
            (x as int) < p0.len() && (z as int) < p0.len() && p0.moves(x) && p0.moves(z) ==> (
            #[trigger] p1.class_of(x as int) == #[trigger] p1.class_of(z as int) <==> p0.class_of(x as int)
                == p0.class_of(z as int)),
    ensures
        finer_than(p1, p0, p0.len() as int),
{
    p0.lemma_wf();
    assert forall|x: usize, y: usize|
        (x as int) < p0.len() && (y as int) < p0.len() && p1.class_at(x) == p1.class_at(y) implies p0.class_at(x)
        == p0.class_at(y) by {
        assert(p1.class_of(x as int) == p1.class_of(y as int));
        assert(p0.class_of(x as int) < p0.k());
        assert(p0.class_of(y as int) < p0.k());
    }
}

/// States in a common class have the same pre-partition key.
pub open spec fn keeps_pre_keys(fst: &VectorFst, p: Partition) -> bool {
    forall|x: usize, y: usize|
        #![trigger p.class_at(x), p.class_at(y)]
        (x as int) < fst.n() && (y as int) < fst.n() && p.class_at(x) == p.class_at(y) ==> pre_key(fst, x)
            == pre_key(fst, y)
}

/// `q` is a partition of the states of `fst` that keeps apart states with
/// different pre-partition keys and whose classes are alike (a stable
/// refinement of the pre-partition).
pub open spec fn stable_refinement(fst: &VectorFst, q: Partition) -> bool {
    &&& q.wf()
    &&& q.len() == fst.n()
    &&& keeps_pre_keys(fst, q)
    &&& bisim_partition(fst, q)
}

/// Every stable refinement of the pre-partition is finer than `r`: `r` is
/// the coarsest one.
pub open spec fn coarsest_stable(fst: &VectorFst, r: Partition) -> bool {
    forall|q: Partition| #[trigger] stable_refinement(fst, q) ==> finer_than(q, r, fst.n())
}

/// A splitter step keeps every stable refinement finer than the partition.
proof fn lemma_coarsest_step(fst: &VectorFst, pb: Partition, pn: Partition, c: int, q: Partition)
    requires
        fst.wf(),
        stable_refinement(fst, q),
        finer_than(q, pb, fst.n()),
        crate::hopcroft::splits_by_profile(fst, pb, pn, class_set(fst, pb, c)),
    ensures
        finer_than(q, pn, fst.n()),
{
    let cs = class_set(fst, pb, c);
    assert forall|x: usize, y: usize|
        (x as int) < fst.n() && (y as int) < fst.n() && #[trigger] q.class_at(x) == #[trigger] q.class_at(y) implies pn.class_at(x)
        == pn.class_at(y) by {
        assert(pb.class_at(x) == pb.class_at(y));
        assert forall|l: usize| #![trigger tr_into(fst, x, l, cs)] #![trigger tr_into(fst, y, l, cs)] tr_into(fst, x, l, cs) == tr_into(fst, y, l, cs) by {
            if tr_into(fst, x, l, cs) {
                lemma_into_alike(fst, pb, q, c, x, y, l);
            }
            if tr_into(fst, y, l, cs) {
                lemma_into_alike(fst, pb, q, c, y, x, l);
            }
        }
        assert(crate::hopcroft::same_profile(fst, cs, x, y));
    }
}

/// Two states in a common class of a stable refinement finer than `pb`
/// have transitions with the same labels into each class of `pb`.
proof fn lemma_into_alike(fst: &VectorFst, pb: Partition, q: Partition, c: int, x: usize, y: usize, l: usize)
    requires
        fst.wf(),
        stable_refinement(fst, q),
        finer_than(q, pb, fst.n()),
        (x as int) < fst.n(),
        (y as int) < fst.n(),
        q.class_at(x) == q.class_at(y),
        tr_into(fst, x, l, class_set(fst, pb, c)),
    ensures
        tr_into(fst, y, l, class_set(fst, pb, c)),
{
    let cs = class_set(fst, pb, c);
    let i = choose|i: int| 0 <= i < fst.trs_at(x).len() && (#[trigger] fst.trs_at(x)[i]).ilabel == l && cs.contains(fst.trs_at(x)[i].nextstate);
    let t = fst.trs_at(x)[i].nextstate;
    assert(crate::language::has_tr_into(fst, q, y, l, q.class_at(t)));
    reveal(crate::language::has_tr_into);
    let i2 = choose|i2: int|
        0 <= i2 < fst.trs_at(y).len() && (#[trigger] fst.trs_at(y)[i2]).ilabel == l && q.class_at(fst.trs_at(y)[i2].nextstate)
            == q.class_at(t);
    let t2 = fst.trs_at(y)[i2].nextstate;
    assert((t as int) < fst.n() && (t2 as int) < fst.n());
    assert(pb.class_at(t2) == pb.class_at(t));
    assert(cs.contains(t2));
}

/// Minimization by Hopcroft's refinement, starting from the pre-partition:
/// for each queued class, the predecessors of its members are marked label
/// by label, in increasing label order, and the marked states are split
/// from their classes.  On a non-deterministic fst, a step that splits a
/// class queues every class again, since stability with respect to a class
/// and one of its parts does not give stability with respect to the other
/// part there.  States in a common class of the result share their
/// pre-partition key and are alike: for each transition of one, the other
/// has a transition with the same label into the same class.
pub fn cyclic_minimize(fst: &VectorFst) -> (r: Partition)
    requires
        fst.wf(),
        forall|s: usize| (s as int) < fst.n() ==> #[trigger] fst.final_at(s) != Some(WEIGHT_ZERO),
    ensures
        r.wf(),
        r.settled(),
        r.nonempty(),
        r.len() == fst.n(),
        keeps_pre_keys(fst, r),
        bisim_partition(fst, r),
        coarsest_stable(fst, r),
        fst.is_i_deterministic() && live(fst) && pre_keys_respect_lang(fst) ==> lang_together(fst, r),
{
    let det = check_i_deterministic(fst);
    let rv = reverse_sorted(fst);
    let n = fst.num_states();
    let empty: Vec<usize> = Vec::new();
    let mut partition = Partition::from_class_ids(&empty, 0);
    let mut queue = LifoQueue::new();
    pre_partition(fst, &mut partition, &mut queue);
    let ghost mut sup: Map<int, Set<usize>> = Map::empty();
    proof {
        partition.lemma_nonempty_bound();
        assert forall|i: int| 0 <= i < queue@.len() implies (#[trigger] queue@[i] as int) < partition.k() by {}
        assert forall|b: int| #[trigger] needs_cover(partition, queue@, -1, b) implies sup.dom().contains(b)
            && covered(fst, partition, queue@, Set::empty(), sup[b], b) by {
            assert(queue@[b] == b as usize);
        }
        if fst.is_i_deterministic() && live(fst) && pre_keys_respect_lang(fst) {
            assert forall|x: usize, y: usize| (x as int) < n && (y as int) < n && #[trigger] same_lang(fst, x, y) implies partition.class_at(x)
                == partition.class_at(y) by {
                assert(pre_key(fst, x) == pre_key(fst, y));
            }
        }
        assert forall|q: Partition| #[trigger] stable_refinement(fst, q) implies finer_than(q, partition, fst.n()) by {
            assert forall|x: usize, y: usize|
                (x as int) < fst.n() && (y as int) < fst.n() && #[trigger] q.class_at(x) == #[trigger] q.class_at(y) implies partition.class_at(
                x,
            ) == partition.class_at(y) by {
                assert(pre_key(fst, x) == pre_key(fst, y));
            }
        }
        partition.lemma_k_bound();
        assert forall|b: int| 0 <= b < partition.k() && !queue@.contains(b as usize) implies #[trigger] stable_all(
            fst,
            partition,
            class_set(fst, partition, b),
        ) by {
            assert(queue@[b] == b as usize);
        }
    }
    while !queue.is_empty()
        invariant
            n == fst.n(),
            fst.wf(),
            rv@.len() == n,
            forall|t: usize| (t as int) < n ==> (#[trigger] rv@[t as int])@ == rev_sorted(fst, t),
            partition.wf(),
            partition.settled(),
            partition.nonempty(),
            partition.len() == n,
            keeps_pre_keys(fst, partition),
            forall|i: int| 0 <= i < queue@.len() ==> (#[trigger] queue@[i] as int) < partition.k(),
            fst.is_i_deterministic() ==> all_covered(fst, partition, queue@, Set::empty(), sup, -1),
            fst.is_i_deterministic() && live(fst) && pre_keys_respect_lang(fst) ==> lang_together(fst, partition),
            det == fst.is_i_deterministic(),
            coarsest_stable(fst, partition),
            !det ==> forall|b: int|
                0 <= b < partition.k() && !queue@.contains(b as usize) ==> #[trigger] stable_all(
                    fst,
                    partition,
                    class_set(fst, partition, b),
                ),
        decreases n - partition.k(), queue@.len(),
    {
        proof {
            partition.lemma_nonempty_bound();
        }
        let ghost pb = partition;
        let ghost qb = queue@;
        let c = match queue.head() {
            Some(c) => c,
            None => 0,
        };
        queue.dequeue();
        let k0 = partition.num_classes();
        process_class(fst, &rv, &mut partition, &mut queue, c);
        let ghost q1 = queue@;
        if !det && partition.num_classes() > k0 {
            enqueue_range(&mut queue, k0);
        }
        proof {
            partition.lemma_wf();
            pb.lemma_wf();
            if !det {
                lemma_requeue_step(fst, pb, partition, qb, q1, queue@, c, k0 as int);
            }
            assert forall|q: Partition| #[trigger] stable_refinement(fst, q) implies finer_than(q, partition, fst.n()) by {
                lemma_coarsest_step(fst, pb, partition, c as int, q);
            }
            lemma_finer_keeps(fst, partition, pb);
            partition.lemma_nonempty_bound();
            assert forall|i: int| 0 <= i < queue@.len() implies (#[trigger] queue@[i] as int) < partition.k() by {
                if i < qb.len() - 1 {
                    assert(q1[i] == qb[i]);
                }
                if i < q1.len() {
                    assert(queue@[i] == q1[i]);
                }
            }
            if fst.is_i_deterministic() {
                assert(queue@ == q1);
                lemma_covered_step(fst, pb, partition, qb, queue@, sup);
            }
            if fst.is_i_deterministic() && live(fst) && pre_keys_respect_lang(fst) {
                lemma_lang_together_step(fst, pb, partition, c as int);
            }
            sup = next_sup(sup, c as int, class_set(fst, pb, c as int));
        }
    }
    proof {
        if fst.is_i_deterministic() {
            assert forall|b: int| 0 <= b < partition.k() implies #[trigger] stable_all(fst, partition, class_set(fst, partition, b)) by {
                assert(needs_cover(partition, queue@, -1, b));
                assert(covered(fst, partition, queue@, Set::empty(), sup[b], b));
                assert(sup[b] =~= class_set(fst, partition, b));
            }
            lemma_stable_bisim(fst, partition);
        } else {
            assert forall|b: int| 0 <= b < partition.k() implies #[trigger] stable_all(fst, partition, class_set(fst, partition, b)) by {
                assert(!queue@.contains(b as usize));
            }
            lemma_stable_bisim(fst, partition);
        }
    }
    partition
}

/// After a splitter step on a non-deterministic fst, every class that is
/// not queued is a splitter the partition is stable with respect to: when
/// no class was split the old classes stay as they were, and when one was
/// split every class is queued again.
proof fn lemma_requeue_step(
    fst: &VectorFst,
    pb: Partition,
    pn: Partition,
    qb: Seq<usize>,
    q1: Seq<usize>,
    qf: Seq<usize>,
    c: usize,
    k0: int,
)
    requires
        pb.wf(),
        pn.wf(),
        pb.len() == fst.n(),
        pn.len() == fst.n(),
        qb.len() > 0,
        qb.last() == c,
        k0 == pb.k(),
        pn.k() >= k0,
        finer_than(pn, pb, fst.n()),
        ids_kept(pb, pn, fst.n()),
        q1 == qb.drop_last() + Seq::new((pn.k() - k0) as nat, |i: int| (k0 + i) as usize),
        stable_all(fst, pn, class_set(fst, pb, c as int)),
        forall|b: int|
            0 <= b < pb.k() && !qb.contains(b as usize) ==> #[trigger] stable_all(fst, pb, class_set(fst, pb, b)),
        pn.k() == k0 ==> qf == q1,
        pn.k() > k0 ==> qf == q1 + Seq::new(k0 as nat, |i: int| i as usize),
    ensures
        forall|b: int|
            0 <= b < pn.k() && !qf.contains(b as usize) ==> #[trigger] stable_all(fst, pn, class_set(fst, pn, b)),
{
    pn.lemma_wf();
    pb.lemma_wf();
    assert(qb =~= qb.drop_last().push(c));
    if pn.k() == k0 {
        assert(q1 =~= qb.drop_last());
        assert forall|x: usize| (x as int) < fst.n() implies #[trigger] pn.class_at(x) == pb.class_at(x) by {
            assert(pn.class_of(x as int) < pn.k());
        }
        assert forall|b: int| 0 <= b < pn.k() && !qf.contains(b as usize) implies #[trigger] stable_all(
            fst,
            pn,
            class_set(fst, pn, b),
        ) by {
            assert(class_set(fst, pn, b) =~= class_set(fst, pb, b));
            if b != c as int {
                pn.lemma_k_bound();
                if qb.contains(b as usize) {
                    let i = choose|i: int| 0 <= i < qb.len() && qb[i] == b as usize;
                    if i < qb.len() - 1 {
                        assert(qf[i] == qb[i]);
                    }
                }
                assert(!qb.contains(b as usize));
                lemma_stable_refine(fst, pb, pn, class_set(fst, pb, b));
            }
        }
    } else {
        assert forall|b: int| 0 <= b < pn.k() && !qf.contains(b as usize) implies #[trigger] stable_all(
            fst,
            pn,
            class_set(fst, pn, b),
        ) by {
            if b < k0 {
                assert(qf[q1.len() + b] == b as usize);
            } else {
                assert(q1[qb.len() - 1 + (b - k0)] == b as usize);
                assert(qf[qb.len() - 1 + (b - k0)] == b as usize);
            }
        }
    }
}

/// Queues the class ids below `k`, in increasing order.
fn enqueue_range(queue: &mut LifoQueue, k: usize)
    ensures
        final(queue)@ == old(queue)@ + Seq::new(k as nat, |i: int| i as usize),
{
    let ghost q0 = queue@;
    let mut b: usize = 0;
    while b < k
        invariant
            b <= k,
            queue@ == q0 + Seq::new(b as nat, |i: int| i as usize),
        decreases k - b,
    {
        queue.enqueue(b);
        b = b + 1;
        proof {
            assert(queue@ =~= q0 + Seq::new(b as nat, |i: int| i as usize));
        }
    }
}

/// Splitting classes keeps states of a common class alike.
proof fn lemma_finer_keeps(fst: &VectorFst, p: Partition, q: Partition)
    requires
        finer_than(p, q, fst.n()),
        keeps_pre_keys(fst, q),
    ensures
        keeps_pre_keys(fst, p),
{
    assert forall|x: usize, y: usize|
        (x as int) < fst.n() && (y as int) < fst.n() && #[trigger] p.class_at(x) == #[trigger] p.class_at(y) implies pre_key(
        fst,
        x,
    ) == pre_key(fst, y) by {
        assert(q.class_at(x) == q.class_at(y));
    }
}

/// The reversed transitions of `trs` (leaving `s`) into `t` are the
/// transitions of `trs` into `t`, turned around.
pub proof fn lemma_rev_of_contains(trs: Seq<Tr>, t: usize, s: usize, y: Tr)
    ensures
        rev_of(trs, t, s).contains(y) <==> (y.nextstate == s && exists|i: int|
            0 <= i < trs.len() && (#[trigger] trs[i]).nextstate == t && trs[i].ilabel == y.ilabel
                && trs[i].olabel == y.olabel && trs[i].weight == y.weight),
    decreases trs.len(),
{
    if trs.len() > 0 {
        let u = trs.drop_last();
        lemma_rev_of_contains(u, t, s, y);
        let r = rev_of(u, t, s);
        let x = trs.last();
        if exists|i: int|
            0 <= i < u.len() && (#[trigger] u[i]).nextstate == t && u[i].ilabel == y.ilabel && u[i].olabel
                == y.olabel && u[i].weight == y.weight {
            let i = choose|i: int|
                0 <= i < u.len() && (#[trigger] u[i]).nextstate == t && u[i].ilabel == y.ilabel && u[i].olabel
                    == y.olabel && u[i].weight == y.weight;
            assert(trs[i] == u[i]);
        }
        if x.nextstate == t {
            let z = Tr { ilabel: x.ilabel, olabel: x.olabel, weight: x.weight, nextstate: s };
            assert(rev_of(trs, t, s) == r.push(z));
            if r.push(z).contains(y) {
                let k = choose|k: int| 0 <= k < r.push(z).len() && r.push(z)[k] == y;
                if k < r.len() {
                    assert(r.contains(y));
                } else {
                    assert(trs[trs.len() - 1] == x);
                }
            }
            if y.nextstate == s && exists|i: int|
                0 <= i < trs.len() && (#[trigger] trs[i]).nextstate == t && trs[i].ilabel == y.ilabel
                    && trs[i].olabel == y.olabel && trs[i].weight == y.weight {
                let i = choose|i: int|
                    0 <= i < trs.len() && (#[trigger] trs[i]).nextstate == t && trs[i].ilabel == y.ilabel
                        && trs[i].olabel == y.olabel && trs[i].weight == y.weight;
                if i < trs.len() - 1 {
                    assert(u[i] == trs[i]);
                    assert(r.contains(y));
                    let k = choose|k: int| 0 <= k < r.len() && r[k] == y;
                    assert(r.push(z)[k] == y);
                } else {
                    assert(y == z);
                    assert(r.push(z)[r.len() as int] == y);
                }
            }
        } else {
            if y.nextstate == s && exists|i: int|
                0 <= i < trs.len() && (#[trigger] trs[i]).nextstate == t && trs[i].ilabel == y.ilabel
                    && trs[i].olabel == y.olabel && trs[i].weight == y.weight {
                let i = choose|i: int|
                    0 <= i < trs.len() && (#[trigger] trs[i]).nextstate == t && trs[i].ilabel == y.ilabel
                        && trs[i].olabel == y.olabel && trs[i].weight == y.weight;
                assert(i < trs.len() - 1);
                assert(u[i] == trs[i]);
            }
        }
    }
}

/// The reversed transitions into `t` from the states below `m` are the
/// transitions into `t` of the states below `m`, turned around.
pub proof fn lemma_pred_trs_contains(fst: &VectorFst, t: usize, m: int, y: Tr)
    requires
        0 <= m,
    ensures
        pred_trs(fst, t, m).contains(y) <==> ((y.nextstate as int) < m && rev_of(
            fst.trs_at(y.nextstate),
            t,
            y.nextstate,
        ).contains(y)),
    decreases m,
{
    if m > 0 {
        lemma_pred_trs_contains(fst, t, m - 1, y);
        let a = pred_trs(fst, t, m - 1);
        let s = (m - 1) as usize;
        let b = rev_of(fst.trs_at(s), t, s);
        lemma_rev_of_contains(fst.trs_at(s), t, s, y);
        if (a + b).contains(y) {
            let k = choose|k: int| 0 <= k < (a + b).len() && (a + b)[k] == y;
            if k < a.len() {
                assert(a[k] == y);
                assert(a.contains(y));
            } else {
                assert(b[k - a.len()] == y);
                assert(b.contains(y));
            }
        }
        if (y.nextstate as int) < m && rev_of(fst.trs_at(y.nextstate), t, y.nextstate).contains(y) {
            if (y.nextstate as int) < m - 1 {
                assert(a.contains(y));
                let k = choose|k: int| 0 <= k < a.len() && a[k] == y;
                assert((a + b)[k] == y);
            } else {
                assert(y.nextstate == s);
                let k = choose|k: int| 0 <= k < b.len() && b[k] == y;
                assert((a + b)[a.len() + k] == y);
            }
        }
    }
}

/// State `x` has a transition with input label `l` to state `t` exactly
/// when the reversed transitions of `t` hold one with label `l` back to `x`.
pub proof fn lemma_rev_sorted_pred(fst: &VectorFst, t: usize, x: usize, l: usize)
    requires
        (x as int) < fst.n(),
    ensures
        (exists|j: int| 0 <= j < rev_sorted(fst, t).len() && (#[trigger] rev_sorted(fst, t)[j]).ilabel == l
            && rev_sorted(fst, t)[j].nextstate == x) <==> (exists|i: int|
            0 <= i < fst.trs_at(x).len() && (#[trigger] fst.trs_at(x)[i]).ilabel == l && fst.trs_at(x)[i].nextstate
                == t),
{
    broadcast use vstd::seq_lib::group_to_multiset_ensures;

    let pt = pred_trs(fst, t, fst.n());
    let rs = rev_sorted(fst, t);
    crate::tr_ops::lemma_sort_multiset(pt, false);
    if exists|j: int| 0 <= j < rs.len() && (#[trigger] rs[j]).ilabel == l && rs[j].nextstate == x {
        let j = choose|j: int| 0 <= j < rs.len() && (#[trigger] rs[j]).ilabel == l && rs[j].nextstate == x;
        let y = rs[j];
        assert(rs.contains(y));
        assert(rs.to_multiset().count(y) > 0);
        assert(pt.contains(y));
        lemma_pred_trs_contains(fst, t, fst.n(), y);
        lemma_rev_of_contains(fst.trs_at(x), t, x, y);
        let i = choose|i: int|
            0 <= i < fst.trs_at(x).len() && (#[trigger] fst.trs_at(x)[i]).nextstate == t && fst.trs_at(x)[i].ilabel
                == y.ilabel && fst.trs_at(x)[i].olabel == y.olabel && fst.trs_at(x)[i].weight == y.weight;
    }
    if exists|i: int|
        0 <= i < fst.trs_at(x).len() && (#[trigger] fst.trs_at(x)[i]).ilabel == l && fst.trs_at(x)[i].nextstate == t {
        let i = choose|i: int|
            0 <= i < fst.trs_at(x).len() && (#[trigger] fst.trs_at(x)[i]).ilabel == l && fst.trs_at(x)[i].nextstate == t;
        let a = fst.trs_at(x)[i];
        let y = Tr { ilabel: a.ilabel, olabel: a.olabel, weight: a.weight, nextstate: x };
        lemma_rev_of_contains(fst.trs_at(x), t, x, y);
        lemma_pred_trs_contains(fst, t, fst.n(), y);
        assert(pt.contains(y));
        assert(pt.to_multiset().count(y) > 0);
        assert(rs.contains(y));
        let j = choose|j: int| 0 <= j < rs.len() && rs[j] == y;
        assert(rs[j].ilabel == l && rs[j].nextstate == x);
    }
}

} // verus!
