use vstd::prelude::*;
use vstd::relations::injective_on;
use vstd::seq_lib::lemma_no_dup_in_concat;
use vstd::set_lib::*;

use crate::queue::LifoQueue;

verus! {

/// A sequence without duplicates of values below `n` has at most `n` items.
pub proof fn lemma_distinct_below_len(s: Seq<usize>, n: usize)
    requires
        s.no_duplicates(),
        forall|i: int| 0 <= i < s.len() ==> s[i] < n,
    ensures
        s.len() <= n,
{
    s.unique_seq_to_set();
    let r = Set::<usize>::range(0, n);
    range_set_properties::<usize>(0, n);
    assert(s.to_set().subset_of(r)) by {
        assert forall|x: usize| s.to_set().contains(x) implies r.contains(x) by {
            let i = choose|i: int| 0 <= i < s.len() && s[i] == x;
        }
    }
    lemma_len_subset(s.to_set(), r);
}

/// Value `c` occurs in `s`.
pub open spec fn seq_holds(s: Seq<usize>, c: int) -> bool {
    exists|e: int| 0 <= e < s.len() && s[e] == c
}

/// Finds the position of `e` in `v`.
fn position_of(v: &Vec<usize>, e: usize) -> (r: usize)
    requires
        v@.contains(e),
    ensures
        r < v@.len(),
        v@[r as int] == e,
{
    let mut i: usize = 0;
    while i < v.len()
        invariant
            i <= v@.len(),
            v@.contains(e),
            forall|j: int| 0 <= j < i ==> v@[j] != e,
        decreases v@.len() - i,
    {
        if v[i] == e {
            return i;
        }
        i = i + 1;
    }
    0
}

/// Removes `e` from a list without duplicates that holds it.
fn remove_element(v: &mut Vec<usize>, e: usize)
    requires
        old(v)@.contains(e),
        old(v)@.no_duplicates(),
    ensures
        final(v)@.no_duplicates(),
        final(v)@.len() == old(v)@.len() - 1,
        forall|x: usize| #[trigger] final(v)@.contains(x) <==> (old(v)@.contains(x) && x != e),
{
    let ghost s = v@;
    let i = position_of(v, e);
    v.remove(i);
    proof {
        let t = v@;
        assert(t =~= s.remove(i as int));
        s.remove_ensures(i as int);
        assert forall|x: usize| #[trigger] t.contains(x) <==> (s.contains(x) && x != e) by {
            if t.contains(x) {
                let k = choose|k: int| 0 <= k < t.len() && t[k] == x;
                if k < i {
                    assert(s[k] == x);
                } else {
                    assert(s[k + 1] == x);
                }
            }
            if s.contains(x) && x != e {
                let k = choose|k: int| 0 <= k < s.len() && s[k] == x;
                if k < i {
                    assert(t[k] == x);
                } else {
                    assert(k != i);
                    assert(t[k - 1] == x);
                }
            }
        }
        assert forall|a: int, b: int| 0 <= a < t.len() && 0 <= b < t.len() && a != b implies t[a]
            != t[b] by {
            let a1 = if a < i { a } else { a + 1 };
            let b1 = if b < i { b } else { b + 1 };
            assert(t[a] == s[a1]);
            assert(t[b] == s[b1]);
        }
    }
}

/// A partition of the elements `0..n` into classes `0..k`.
///
/// Each class keeps its members in two lists: the members marked by
/// `split_on` since the last `finalize_split` (the "yes" subset) and the
/// others.  `finalize_split` separates the marked members from the unmarked
/// ones, giving the smaller subset a new class id.
pub struct Partition {
    class_id: Vec<usize>,
    no: Vec<Vec<usize>>,
    yes: Vec<Vec<usize>>,
    marked: Vec<bool>,
    visited: Vec<usize>,
}

impl Partition {
    /// Number of elements.
    pub closed spec fn len(&self) -> nat {
        self.class_id@.len()
    }

    /// Number of classes.
    pub closed spec fn k(&self) -> nat {
        self.no@.len()
    }

    /// The class of element `e`.
    pub closed spec fn class_of(&self, e: int) -> int {
        self.class_id@[e] as int
    }

    /// The class of element `e`.
    pub open spec fn class_at(&self, e: usize) -> int {
        self.class_of(e as int)
    }

    /// The unmarked members of class `c`.
    pub closed spec fn no_of(&self, c: int) -> Seq<usize> {
        self.no@[c]@
    }

    /// The members of class `c` marked by `split_on`.
    pub closed spec fn yes_of(&self, c: int) -> Seq<usize> {
        self.yes@[c]@
    }

    /// The classes that hold a marked member, in the order of their first mark.
    pub closed spec fn visited_classes(&self) -> Seq<usize> {
        self.visited@
    }

    /// Whether element `e` is marked.
    pub open spec fn in_yes(&self, e: usize) -> bool {
        self.yes_of(self.class_of(e as int)).contains(e)
    }

    /// Number of members of class `c`.
    pub open spec fn class_size(&self, c: int) -> nat {
        self.no_of(c).len() + self.yes_of(c).len()
    }

    /// Internal consistency of the member lists with the class ids.
    pub closed spec fn wf(&self) -> bool {
        let n = self.class_id@.len() as int;
        let k = self.no@.len() as int;
        &&& self.yes@.len() == k
        &&& self.marked@.len() == n
        &&& forall|e: int| 0 <= e < n ==> (#[trigger] self.class_of(e)) < k
        &&& forall|e: usize|
            (e as int) < n ==> #[trigger] self.marked@[e as int] == self.yes_of(
                self.class_of(e as int),
            ).contains(e)
        &&& forall|c: int| 0 <= c < k ==> (#[trigger] self.no_of(c)).no_duplicates()
        &&& forall|c: int| 0 <= c < k ==> (#[trigger] self.yes_of(c)).no_duplicates()
        &&& forall|c: int, x: usize|
            0 <= c < k && #[trigger] self.no_of(c).contains(x) ==> (x as int) < n
                && self.class_of(x as int) == c && !self.yes_of(c).contains(x)
        &&& forall|c: int, x: usize|
            0 <= c < k && #[trigger] self.yes_of(c).contains(x) ==> (x as int) < n
                && self.class_of(x as int) == c
        &&& forall|e: usize|
            (e as int) < n ==> #[trigger] self.no_of(self.class_of(e as int)).contains(e)
                || self.yes_of(self.class_of(e as int)).contains(e)
        &&& self.visited@.no_duplicates()
        &&& forall|i: int| 0 <= i < self.visited@.len() ==> (#[trigger] self.visited@[i] as int) < k
        &&& forall|c: int|
            0 <= c < k ==> ((#[trigger] self.yes_of(c)).len() > 0 <==> self.visited@.contains(
                c as usize,
            ))
    }

    /// No member is marked.
    pub open spec fn settled(&self) -> bool {
        self.visited_classes().len() == 0
    }

    /// Class `c` has a member.
    pub open spec fn has_member(&self, c: int) -> bool {
        exists|e: int| 0 <= e < self.len() && #[trigger] self.class_of(e) == c
    }

    /// Every class has a member.
    pub open spec fn nonempty(&self) -> bool {
        forall|c: int| 0 <= c < self.k() ==> #[trigger] self.has_member(c)
    }

    /// Whether `finalize_split` gives element `e` a new class: its class has
    /// both marked and unmarked members, and `e` lies in the smaller of the
    /// two subsets (in the marked one when they are equally large).
    pub open spec fn moves(&self, e: usize) -> bool {
        let c = self.class_of(e as int);
        let y = self.yes_of(c).len();
        let m = self.no_of(c).len();
        &&& y > 0
        &&& m > 0
        &&& if m < y {
            !self.in_yes(e)
        } else {
            self.in_yes(e)
        }
    }

    /// The class of an element is a class.
    pub open spec fn class_id_bound(&self, e: int) -> bool {
        0 <= e < self.len() ==> 0 <= self.class_of(e) < self.k()
    }

    /// The number of elements fits in a `usize`.
    pub proof fn lemma_len_bound(&self)
        ensures
            self.len() <= usize::MAX,
    {
        assert(self.class_id@.len() == self.class_id.len());
    }

    /// The number of classes fits in a `usize`.
    pub proof fn lemma_k_bound(&self)
        ensures
            self.k() <= usize::MAX,
    {
        assert(self.no@.len() == self.no.len());
    }

    /// A class id is a `usize` value.
    pub proof fn lemma_class_usize(&self, e: usize)
        ensures
            0 <= self.class_at(e) <= usize::MAX,
    {
    }

    /// The consequences of `wf` that the users of a partition rely on.
    pub proof fn lemma_wf(&self)
        requires
            self.wf(),
        ensures
            forall|e: int| 0 <= e < self.len() ==> 0 <= #[trigger] self.class_of(e) < self.k(),
            forall|c: int, x: usize|
                0 <= c < self.k() ==> (#[trigger] (self.no_of(c) + self.yes_of(c)).contains(x) <==> (
                (x as int) < self.len() && self.class_of(x as int) == c)),
            forall|c: int|
                0 <= c < self.k() ==> (#[trigger] (self.no_of(c) + self.yes_of(c))).no_duplicates(),
            forall|c: int| 0 <= c < self.k() ==> #[trigger] self.class_size(c) <= self.len(),
            self.settled() ==> forall|c: int| 0 <= c < self.k() ==> #[trigger] self.yes_of(c).len()
                == 0,
    {
        assert forall|c: int| 0 <= c < self.k() implies (#[trigger] (self.no_of(c)
            + self.yes_of(c))).no_duplicates() by {
            let a = self.no_of(c);
            let b = self.yes_of(c);
            assert forall|i: int, j: int| 0 <= i < a.len() && 0 <= j < b.len() implies a[i]
                != b[j] by {
                assert(a.contains(a[i]));
            }
            lemma_no_dup_in_concat(a, b);
        }
        assert forall|c: int, x: usize| 0 <= c < self.k() implies (#[trigger] (self.no_of(c)
            + self.yes_of(c)).contains(x) <==> ((x as int) < self.len() && self.class_of(x as int)
            == c)) by {
            let a = self.no_of(c);
            let b = self.yes_of(c);
            if (a + b).contains(x) {
                let i = choose|i: int| 0 <= i < (a + b).len() && (a + b)[i] == x;
                if i < a.len() {
                    assert(a.contains(x));
                } else {
                    assert(b[i - a.len()] == x);
                    assert(b.contains(x));
                }
            }
            if (x as int) < self.len() && self.class_of(x as int) == c {
                assert(self.no_of(self.class_of(x as int)).contains(x as usize) || self.yes_of(
                    self.class_of(x as int),
                ).contains(x as usize));
                if a.contains(x) {
                    let i = choose|i: int| 0 <= i < a.len() && a[i] == x;
                    assert((a + b)[i] == x);
                } else {
                    let i = choose|i: int| 0 <= i < b.len() && b[i] == x;
                    assert((a + b)[a.len() + i] == x);
                }
            }
        }
        assert forall|c: int| 0 <= c < self.k() implies #[trigger] self.class_size(c)
            <= self.len() by {
            let s = self.no_of(c) + self.yes_of(c);
            assert forall|i: int| 0 <= i < s.len() implies s[i] < self.len() by {
                assert(s.contains(s[i]));
            }
            assert(self.class_id@.len() == self.class_id.len());
            lemma_distinct_below_len(s, self.class_id.len());
        }
        if self.settled() {
            assert forall|c: int| 0 <= c < self.k() implies #[trigger] self.yes_of(c).len()
                == 0 by {
                if self.yes_of(c).len() > 0 {
                    assert(self.visited@.contains(c as usize));
                }
            }
        }
    }

    /// A partition whose classes all have a member has at most as many
    /// classes as elements.
    pub proof fn lemma_nonempty_bound(&self)
        requires
            self.wf(),
            self.nonempty(),
        ensures
            self.k() <= self.len(),
    {
        let k = self.k() as int;
        let n = self.len() as int;
        let x = set_int_range(0, k);
        let f = |c: int| choose|e: int| 0 <= e < n && self.class_of(e) == c;
        let y = x.map(f);
        lemma_int_range(0, k);
        lemma_int_range(0, n);
        assert(injective_on(f, x)) by {
            assert forall|a: int, b: int| x.contains(a) && x.contains(b) && f(a) == f(b) implies a
                == b by {
                assert(self.has_member(a));
                assert(self.has_member(b));
            }
        }
        lemma_map_size(x, y, f);
        assert(y.subset_of(set_int_range(0, n))) by {
            assert forall|e: int| y.contains(e) implies set_int_range(0, n).contains(e) by {
                let c = choose|c: int| x.contains(c) && f(c) == e;
                assert(self.has_member(c));
            }
        }
        lemma_len_subset(y, set_int_range(0, n));
    }

    /// Builds the partition that puts element `e` in class `ids[e]`.
    pub fn from_class_ids(ids: &Vec<usize>, k: usize) -> (r: Partition)
        requires
            forall|e: int| 0 <= e < ids@.len() ==> ids@[e] < k,
        ensures
            r.wf(),
            r.settled(),
            r.len() == ids@.len(),
            r.k() == k,
            forall|e: int| 0 <= e < ids@.len() ==> #[trigger] r.class_of(e) == ids@[e],
            (forall|c: int| 0 <= c < k ==> #[trigger] seq_holds(ids@, c)) ==> r.nonempty(),
    {
        let mut no: Vec<Vec<usize>> = Vec::new();
        let mut yes: Vec<Vec<usize>> = Vec::new();
        let mut c: usize = 0;
        while c < k
            invariant
                c <= k,
                no@.len() == c,
                yes@.len() == c,
                forall|d: int| 0 <= d < c ==> (#[trigger] no@[d])@.len() == 0,
                forall|d: int| 0 <= d < c ==> (#[trigger] yes@[d])@.len() == 0,
            decreases k - c,
        {
            no.push(Vec::new());
            yes.push(Vec::new());
            c = c + 1;
        }
        let mut class_id: Vec<usize> = Vec::new();
        let mut marked: Vec<bool> = Vec::new();
        let mut e: usize = 0;
        while e < ids.len()
            invariant
                e <= ids@.len(),
                class_id@ == ids@.subrange(0, e as int),
                marked@.len() == e,
                forall|i: int| 0 <= i < e ==> !(#[trigger] marked@[i]),
                forall|i: int| 0 <= i < ids@.len() ==> ids@[i] < k,
                no@.len() == k,
                yes@.len() == k,
                forall|d: int| 0 <= d < k ==> (#[trigger] yes@[d])@.len() == 0,
                forall|d: int| 0 <= d < k ==> (#[trigger] no@[d])@.no_duplicates(),
                forall|d: int, x: usize|
                    0 <= d < k && #[trigger] no@[d]@.contains(x) ==> x < e && ids@[x as int] == d,
                forall|i: usize| (i as int) < e ==> #[trigger] no@[ids@[i as int] as int]@.contains(i),
            decreases ids@.len() - e,
        {
            let d = ids[e];
            class_id.push(d);
            marked.push(false);
            let ghost old_no = no@;
            no[d].push(e);
            proof {
                assert forall|d2: int| 0 <= d2 < k implies (#[trigger] no@[d2])@.no_duplicates() by {
                    if d2 != d {
                        assert(no@[d2] == old_no[d2]);
                    } else {
                        assert(!old_no[d2]@.contains(e));
                        assert(no@[d2]@ == old_no[d2]@.push(e));
                    }
                }
                assert forall|d2: int, x: usize|
                    0 <= d2 < k && #[trigger] no@[d2]@.contains(x) implies x < e + 1 && ids@[x as int]
                    == d2 by {
                    if d2 != d {
                        assert(no@[d2] == old_no[d2]);
                    } else {
                        assert(no@[d2]@ == old_no[d2]@.push(e));
                        if x != e {
                            assert(old_no[d2]@.contains(x));
                        }
                    }
                }
                assert forall|i: usize| (i as int) < e + 1 implies #[trigger] no@[ids@[i as int] as int]@.contains(
                    i,
                ) by {
                    let d2 = ids@[i as int] as int;
                    if d2 != d {
                        assert(no@[d2] == old_no[d2]);
                    } else if i < e {
                        assert(no@[d2]@ == old_no[d2]@.push(e));
                        assert(old_no[ids@[i as int] as int]@.contains(i));
                        let j = choose|j: int| 0 <= j < old_no[d2]@.len() && old_no[d2]@[j] == i;
                        assert(no@[d2]@[j] == i);
                    } else {
                        assert(no@[d2]@ == old_no[d2]@.push(e));
                        assert(no@[d2]@[old_no[d2]@.len() as int] == e);
                    }
                }
            }
            e = e + 1;
        }
        let r = Partition { class_id, no, yes, marked, visited: Vec::new() };
        proof {
            assert(class_id@ =~= ids@);
            assert forall|c2: int, x: usize|
                0 <= c2 < k && #[trigger] r.yes_of(c2).contains(x) implies false by {
                let i = choose|i: int| 0 <= i < r.yes_of(c2).len() && r.yes_of(c2)[i] == x;
            }
            if forall|c: int| 0 <= c < k ==> #[trigger] seq_holds(ids@, c) {
                assert forall|c: int| 0 <= c < r.k() implies #[trigger] r.has_member(c) by {
                    assert(seq_holds(ids@, c));
                    let e = choose|e: int| 0 <= e < ids@.len() && ids@[e] == c;
                    assert(r.class_of(e) == c);
                }
            }
        }
        r
    }

    /// Number of elements.
    pub fn num_elements(&self) -> (r: usize)
        ensures
            r == self.len(),
    {
        self.class_id.len()
    }

    /// Number of classes.
    pub fn num_classes(&self) -> (r: usize)
        ensures
            r == self.k(),
    {
        self.no.len()
    }

    /// The class of element `e`.
    pub fn get_class_id(&self, e: usize) -> (r: usize)
        requires
            (e as int) < self.len(),
        ensures
            r == self.class_of(e as int),
    {
        self.class_id[e]
    }

    /// Number of members of class `c`.
    pub fn get_class_size(&self, c: usize) -> (r: usize)
        requires
            self.wf(),
            (c as int) < self.k(),
        ensures
            r == self.class_size(c as int),
    {
        proof {
            self.lemma_wf();
            assert(self.class_size(c as int) <= self.len());
            assert(self.class_id@.len() == self.class_id.len());
        }
        self.no[c].len() + self.yes[c].len()
    }

    /// The members of class `c`.
    pub fn iter(&self, c: usize) -> (r: Vec<usize>)
        requires
            self.wf(),
            (c as int) < self.k(),
        ensures
            r@ == self.no_of(c as int) + self.yes_of(c as int),
            r@.no_duplicates(),
            forall|x: usize| #[trigger]
                r@.contains(x) <==> ((x as int) < self.len() && self.class_of(x as int) == c),
    {
        proof {
            self.lemma_wf();
        }
        let mut r: Vec<usize> = Vec::new();
        let mut i: usize = 0;
        while i < self.no[c].len()
            invariant
                i <= self.no_of(c as int).len(),
                (c as int) < self.k(),
                self.wf(),
                r@ == self.no_of(c as int).subrange(0, i as int),
            decreases self.no_of(c as int).len() - i,
        {
            r.push(self.no[c][i]);
            i = i + 1;
            proof {
                assert(r@ =~= self.no_of(c as int).subrange(0, i as int));
            }
        }
        let mut j: usize = 0;
        while j < self.yes[c].len()
            invariant
                j <= self.yes_of(c as int).len(),
                (c as int) < self.k(),
                self.wf(),
                r@ == self.no_of(c as int) + self.yes_of(c as int).subrange(0, j as int),
            decreases self.yes_of(c as int).len() - j,
        {
            r.push(self.yes[c][j]);
            j = j + 1;
            proof {
                assert(r@ =~= self.no_of(c as int) + self.yes_of(c as int).subrange(0, j as int));
            }
        }
        proof {
            assert(self.no_of(c as int) =~= self.no_of(c as int).subrange(
                0,
                self.no_of(c as int).len() as int,
            ));
            assert(self.yes_of(c as int) =~= self.yes_of(c as int).subrange(
                0,
                self.yes_of(c as int).len() as int,
            ));
        }
        r
    }

    /// Adds a new, empty class and returns its id.
    pub fn add_class(&mut self) -> (r: usize)
        requires
            old(self).wf(),
        ensures
            final(self).wf(),
            r == old(self).k(),
            final(self).k() == old(self).k() + 1,
            final(self).len() == old(self).len(),
            final(self).visited_classes() == old(self).visited_classes(),
            final(self).class_size(r as int) == 0,
            forall|e: int| 0 <= e < old(self).len() ==> #[trigger] final(self).class_of(e) == old(self).class_of(e),
            forall|d: int| 0 <= d < old(self).k() ==> #[trigger] final(self).no_of(d) == old(self).no_of(d) && final(self).yes_of(d) == old(self).yes_of(d),
    {
        let r = self.no.len();
        self.no.push(Vec::new());
        self.yes.push(Vec::new());
        proof {
            let k = r as int;
            assert(self.no_of(k) =~= Seq::<usize>::empty());
            assert(self.yes_of(k) =~= Seq::<usize>::empty());
            assert forall|d: int| 0 <= d < k implies #[trigger] self.no_of(d) == old(self).no_of(d) && self.yes_of(d) == old(self).yes_of(d) by {}
            assert forall|c: int, x: usize| 0 <= c < k + 1 && #[trigger] self.no_of(c).contains(x) implies (x as int) < self.len() && self.class_of(x as int) == c && !self.yes_of(c).contains(x) by {
                if c == k {
                    assert(false);
                } else {
                    assert(old(self).no_of(c).contains(x));
                }
            }
            assert forall|c: int| 0 <= c < k + 1 implies (#[trigger] self.no_of(c)).no_duplicates() by {
                if c < k {
                    assert(old(self).no_of(c).no_duplicates());
                }
            }
            assert forall|c: int| 0 <= c < k + 1 implies (#[trigger] self.yes_of(c)).no_duplicates() by {
                if c < k {
                    assert(old(self).yes_of(c).no_duplicates());
                }
            }
            assert forall|e: int| 0 <= e < self.len() implies #[trigger] self.class_of(e) < k + 1 by {
                assert(old(self).class_of(e) < k);
            }
            assert forall|e: usize| (e as int) < self.len() implies #[trigger] self.marked@[e as int] == self.yes_of(self.class_of(e as int)).contains(e) by {
                assert(old(self).marked@[e as int] == old(self).yes_of(old(self).class_of(e as int)).contains(e));
            }
            assert forall|e: usize| (e as int) < self.len() implies #[trigger] self.no_of(self.class_of(e as int)).contains(e) || self.yes_of(self.class_of(e as int)).contains(e) by {
                assert(old(self).no_of(old(self).class_of(e as int)).contains(e) || old(self).yes_of(old(self).class_of(e as int)).contains(e));
            }
            assert forall|c: int, x: usize| 0 <= c < k + 1 && #[trigger] self.yes_of(c).contains(x) implies (x as int) < self.len() && self.class_of(x as int) == c by {
                if c == k {
                    assert(false);
                } else {
                    assert(old(self).yes_of(c).contains(x));
                }
            }
            assert forall|c: int| 0 <= c < k + 1 implies ((#[trigger] self.yes_of(c)).len() > 0 <==> self.visited@.contains(c as usize)) by {
                if c < k {
                    assert(old(self).yes_of(c).len() > 0 <==> old(self).visited@.contains(c as usize));
                } else {
                    if self.visited@.contains(c as usize) {
                        let i = choose|i: int| 0 <= i < self.visited@.len() && self.visited@[i] == c as usize;
                        assert((self.visited@[i] as int) < k);
                    }
                }
            }
        }
        r
    }

    /// Moves element `e` to class `c`.
    pub fn move_element(&mut self, e: usize, c: usize)
        requires
            old(self).wf(),
            old(self).settled(),
            (e as int) < old(self).len(),
            (c as int) < old(self).k(),
        ensures
            final(self).wf(),
            final(self).settled(),
            final(self).k() == old(self).k(),
            final(self).len() == old(self).len(),
            forall|x: int| 0 <= x < old(self).len() ==> #[trigger] final(self).class_of(x) == if x == e as int { c as int } else { old(self).class_of(x) },
    {
        proof {
            self.lemma_wf();
        }
        let d = self.class_id[e];
        if d == c {
            return;
        }
        let ghost s0 = *self;
        proof {
            assert(s0 == *old(self));
            assert(s0.wf());
            assert(s0.class_of(e as int) == d as int);
            assert(s0.no_of(s0.class_of(e as int)).contains(e) || s0.yes_of(s0.class_of(e as int)).contains(e));
            assert(s0.yes_of(d as int).len() == 0);
            if s0.yes_of(d as int).contains(e) {
                let i = choose|i: int| 0 <= i < s0.yes_of(d as int).len() && s0.yes_of(d as int)[i] == e;
            }
        }
        remove_element(&mut self.no[d], e);
        self.no[c].push(e);
        self.class_id.set(e, c);
        proof {
            let n = s0.len() as int;
            let k = s0.k() as int;
            assert forall|c2: int| 0 <= c2 < k implies #[trigger] self.yes_of(c2) == s0.yes_of(c2) by {}
            assert forall|x: int| 0 <= x < n implies #[trigger] self.class_of(x) < k by {
                assert(s0.class_of(x) < k);
            }
            assert forall|c2: int| 0 <= c2 < k && c2 != d && c2 != c implies #[trigger] self.no_of(c2) == s0.no_of(c2) by {}
            assert(self.no_of(c as int) == s0.no_of(c as int).push(e));
            assert forall|c2: int| 0 <= c2 < k implies (#[trigger] self.no_of(c2)).no_duplicates() by {
                if c2 == c {
                    assert(!s0.no_of(c as int).contains(e));
                }
            }
            assert forall|c2: int| 0 <= c2 < k implies (#[trigger] self.yes_of(c2)).no_duplicates() by {
                assert(self.yes_of(c2) == s0.yes_of(c2));
            }
            assert forall|c2: int, x: usize| 0 <= c2 < k && #[trigger] self.no_of(c2).contains(x) implies (x as int) < n && self.class_of(x as int) == c2 && !self.yes_of(c2).contains(x) by {
                if c2 == c as int {
                    if x != e {
                        assert(s0.no_of(c2).contains(x));
                    }
                } else if c2 == d as int {
                    assert(s0.no_of(c2).contains(x));
                } else {
                    assert(s0.no_of(c2).contains(x));
                }
            }
            assert forall|c2: int, x: usize| 0 <= c2 < k && #[trigger] self.yes_of(c2).contains(x) implies false by {
                assert(s0.yes_of(c2).len() == 0);
                let i = choose|i: int| 0 <= i < s0.yes_of(c2).len() && s0.yes_of(c2)[i] == x;
            }
            assert forall|x: usize| (x as int) < n implies #[trigger] self.no_of(self.class_of(x as int)).contains(x) || self.yes_of(self.class_of(x as int)).contains(x) by {
                if x == e {
                    assert(self.no_of(c as int)[s0.no_of(c as int).len() as int] == e);
                } else {
                    let cx = s0.class_of(x as int);
                    assert(self.class_of(x as int) == cx);
                    assert(s0.no_of(s0.class_of(x as int)).contains(x) || s0.yes_of(s0.class_of(x as int)).contains(x));
                    if s0.yes_of(cx).contains(x) {
                        let i = choose|i: int| 0 <= i < s0.yes_of(cx).len() && s0.yes_of(cx)[i] == x;
                    }
                    if cx == c as int {
                        let i = choose|i: int| 0 <= i < s0.no_of(cx).len() && s0.no_of(cx)[i] == x;
                        assert(self.no_of(cx)[i] == x);
                    }
                }
            }
            assert forall|x: usize| (x as int) < n implies #[trigger] self.marked@[x as int] == self.yes_of(self.class_of(x as int)).contains(x) by {
                assert(s0.marked@[x as int] == s0.yes_of(s0.class_of(x as int)).contains(x));
                let cx = self.class_of(x as int);
                if self.yes_of(cx).contains(x) {
                    let i = choose|i: int| 0 <= i < self.yes_of(cx).len() && self.yes_of(cx)[i] == x;
                }
                if s0.yes_of(s0.class_of(x as int)).contains(x) {
                    let i = choose|i: int| 0 <= i < s0.yes_of(s0.class_of(x as int)).len() && s0.yes_of(s0.class_of(x as int))[i] == x;
                }
            }
            assert forall|c2: int| 0 <= c2 < k implies ((#[trigger] self.yes_of(c2)).len() > 0 <==> self.visited@.contains(c2 as usize)) by {
                assert(s0.yes_of(c2).len() > 0 <==> s0.visited@.contains(c2 as usize));
            }
        }
    }

    /// Marks element `e`: `finalize_split` will separate the marked members of
    /// each class from the others.
    #[verifier::spinoff_prover]
    #[verifier::rlimit(40)]
    pub fn split_on(&mut self, e: usize)
        requires
            old(self).wf(),
            (e as int) < old(self).len(),
        ensures
            final(self).wf(),
            final(self).len() == old(self).len(),
            final(self).k() == old(self).k(),
            forall|x: int| 0 <= x < old(self).len() ==> #[trigger] final(self).class_of(x) == old(self).class_of(x),
            forall|x: usize| (x as int) < old(self).len() ==> #[trigger] final(self).in_yes(x) == (old(self).in_yes(x) || x == e),
            final(self).visited_classes() == if old(self).yes_of(old(self).class_of(e as int)).len() == 0 {
                old(self).visited_classes().push(old(self).class_of(e as int) as usize)
            } else {
                old(self).visited_classes()
            },
            forall|d: int| 0 <= d < old(self).k() && d != old(self).class_of(e as int) ==> #[trigger] final(self).no_of(d) == old(self).no_of(d) && final(self).yes_of(d) == old(self).yes_of(d),
            old(self).in_yes(e) ==> final(self).no_of(old(self).class_of(e as int)) == old(self).no_of(old(self).class_of(e as int)) && final(self).yes_of(old(self).class_of(e as int)) == old(self).yes_of(old(self).class_of(e as int)),
            !old(self).in_yes(e) ==> final(self).no_of(old(self).class_of(e as int)).len() + 1 == old(self).no_of(old(self).class_of(e as int)).len() && final(self).yes_of(old(self).class_of(e as int)) == old(self).yes_of(old(self).class_of(e as int)).push(e),
    {
        proof {
            self.lemma_wf();
        }
        let c = self.class_id[e];
        if self.marked[e] {
            return;
        }
        let ghost s0 = *self;
        proof {
            assert(s0 == *old(self));
            assert(s0.wf());
            assert(s0.class_of(e as int) == c as int);
            assert(s0.no_of(s0.class_of(e as int)).contains(e) || s0.yes_of(s0.class_of(e as int)).contains(e));
            assert(s0.marked@[e as int] == s0.yes_of(s0.class_of(e as int)).contains(e));
            assert(s0.no_of(c as int).contains(e));
        }
        if self.yes[c].len() == 0 {
            proof {
                if s0.visited@.contains(c) {
                    assert(s0.yes_of(c as int).len() > 0);
                }
            }
            self.visited.push(c);
        }
        remove_element(&mut self.no[c], e);
        self.yes[c].push(e);
        self.marked.set(e, true);
        proof {
            let n = s0.len() as int;
            let k = s0.k() as int;
            let ci = c as int;
            assert(k <= usize::MAX) by {
                assert(s0.no@.len() == s0.no.len());
            }
            assert(self.visited@ == if s0.yes_of(ci).len() == 0 { s0.visited@.push(c) } else { s0.visited@ });
            assert forall|d: int| 0 <= d < k && d != ci implies #[trigger] self.no_of(d) == s0.no_of(d) && self.yes_of(d) == s0.yes_of(d) by {}
            assert(self.yes_of(ci) == s0.yes_of(ci).push(e));
            assert(self.yes_of(ci).contains(e)) by {
                assert(self.yes_of(ci)[s0.yes_of(ci).len() as int] == e);
            }
            assert forall|x: usize| #[trigger] self.yes_of(ci).contains(x) <==> (s0.yes_of(ci).contains(x) || x == e) by {
                if self.yes_of(ci).contains(x) && x != e {
                    let i = choose|i: int| 0 <= i < self.yes_of(ci).len() && self.yes_of(ci)[i] == x;
                    assert(s0.yes_of(ci)[i] == x);
                }
                if s0.yes_of(ci).contains(x) {
                    let i = choose|i: int| 0 <= i < s0.yes_of(ci).len() && s0.yes_of(ci)[i] == x;
                    assert(self.yes_of(ci)[i] == x);
                }
            }
            assert forall|x: int| 0 <= x < n implies #[trigger] self.class_of(x) < k by {
                assert(s0.class_of(x) < k);
            }
            assert forall|d: int| 0 <= d < k implies (#[trigger] self.no_of(d)).no_duplicates() by {
                assert(s0.no_of(d).no_duplicates());
            }
            assert forall|d: int| 0 <= d < k implies (#[trigger] self.yes_of(d)).no_duplicates() by {
                assert(s0.yes_of(d).no_duplicates());
                if d == ci {
                    assert(!s0.yes_of(ci).contains(e));
                } else {
                    assert(0 <= d < k);
                assert(self.no_of(d) == s0.no_of(d) && self.yes_of(d) == s0.yes_of(d));
                }
            }
            assert forall|d: int, x: usize| 0 <= d < k && #[trigger] self.no_of(d).contains(x) implies (x as int) < n && self.class_of(x as int) == d && !self.yes_of(d).contains(x) by {
                if d == ci {
                    assert(s0.no_of(d).contains(x));
                } else {
                    assert(s0.no_of(d).contains(x));
                }
            }
            assert forall|d: int, x: usize| 0 <= d < k && #[trigger] self.yes_of(d).contains(x) implies (x as int) < n && self.class_of(x as int) == d by {
                if d == ci {
                    if x != e {
                        assert(s0.yes_of(d).contains(x));
                    }
                } else {
                    assert(s0.yes_of(d).contains(x));
                }
            }
            assert forall|x: usize| (x as int) < n implies #[trigger] self.no_of(self.class_of(x as int)).contains(x) || self.yes_of(self.class_of(x as int)).contains(x) by {
                assert(s0.no_of(s0.class_of(x as int)).contains(x) || s0.yes_of(s0.class_of(x as int)).contains(x));
            }
            assert forall|x: usize| (x as int) < n implies #[trigger] self.marked@[x as int] == self.yes_of(self.class_of(x as int)).contains(x) by {
                assert(s0.marked@[x as int] == s0.yes_of(s0.class_of(x as int)).contains(x));
            }
            assert forall|i: int| 0 <= i < self.visited@.len() implies (#[trigger] self.visited@[i] as int) < k by {
                if i < s0.visited@.len() {
                    assert(s0.visited@[i] == self.visited@[i]);
                }
            }
            assert forall|d: int| 0 <= d < k implies ((#[trigger] self.yes_of(d)).len() > 0 <==> self.visited@.contains(d as usize)) by {
                assert(s0.wf());
                assert(s0.yes_of(d).len() > 0 <==> s0.visited@.contains(d as usize));
                if d != ci {
                    assert(0 <= d < k);
                assert(self.no_of(d) == s0.no_of(d) && self.yes_of(d) == s0.yes_of(d));
                } else {
                    assert(self.yes_of(ci).len() > 0);
                    if s0.yes_of(ci).len() == 0 {
                        assert(self.visited@[s0.visited@.len() as int] == c);
                    } else {
                        assert(s0.visited@.contains(c));
                    }
                }
                if s0.visited@.contains(d as usize) {
                    let i = choose|i: int| 0 <= i < s0.visited@.len() && s0.visited@[i] == d as usize;
                    assert(self.visited@[i] == d as usize);
                }
                if self.visited@.contains(d as usize) && d != ci {
                    let i = choose|i: int| 0 <= i < self.visited@.len() && self.visited@[i] == d as usize;
                    if i < s0.visited@.len() {
                        assert(s0.visited@[i] == d as usize);
                    } else {
                        assert(self.visited@[i] == c);
                    }
                }
                if d == ci && s0.yes_of(ci).len() == 0 {
                    assert(self.visited@[s0.visited@.len() as int] == c);
                }
            }
            assert(self.visited@.no_duplicates()) by {
                if s0.yes_of(ci).len() == 0 {
                    assert(!s0.visited@.contains(c));
                }
            }
            assert forall|x: usize| (x as int) < n implies #[trigger] self.in_yes(x) == (s0.in_yes(x) || x == e) by {
                assert(self.class_of(x as int) == s0.class_of(x as int));
            }
        }
    }

    /// The class marked last, which `finalize_split` refines first.
    pub closed spec fn last_visited(&self) -> int {
        self.visited@.last() as int
    }

    /// Separates the marked members of the class marked last from its
    /// unmarked members; the smaller subset gets a new class, which is queued.
    #[verifier::spinoff_prover]
    #[verifier::rlimit(100)]
    fn refine_last(&mut self, queue: &mut LifoQueue)
        requires
            old(self).wf(),
            old(self).visited_classes().len() > 0,
        ensures
            final(self).wf(),
            final(self).len() == old(self).len(),
            final(self).visited_classes() == old(self).visited_classes().drop_last(),
            old(self).last_visited() == old(self).visited_classes().last() as int,
            final(self).k() == if old(self).no_of(old(self).last_visited()).len() > 0 {
                old(self).k() + 1
            } else {
                old(self).k()
            },
            final(queue)@ == if old(self).no_of(old(self).last_visited()).len() > 0 {
                old(queue)@.push(old(self).k() as usize)
            } else {
                old(queue)@
            },
            forall|x: usize| (x as int) < old(self).len() ==> #[trigger] final(self).class_of(x as int) == if old(self).class_of(x as int) == old(self).last_visited() && old(self).moves(x) {
                old(self).k() as int
            } else {
                old(self).class_of(x as int)
            },
            forall|x: usize| (x as int) < old(self).len() ==> #[trigger] final(self).in_yes(x) == (old(self).in_yes(x) && old(self).class_of(x as int) != old(self).last_visited()),
            forall|d: int| 0 <= d < old(self).k() && d != old(self).last_visited() ==> #[trigger] final(self).no_of(d) == old(self).no_of(d) && final(self).yes_of(d) == old(self).yes_of(d),
            old(self).nonempty() ==> final(self).nonempty(),
    {
        let ghost s0 = *self;
        proof {
            assert(s0 == *old(self));
            assert(s0.wf());
            self.lemma_wf();
            assert(s0.k() <= usize::MAX) by {
                assert(s0.no@.len() == s0.no.len());
            }
        }
        let c = self.visited.pop().unwrap();
        let ghost ci = c as int;
        let ghost y = s0.yes_of(ci);
        let ghost nn = s0.no_of(ci);
        proof {
            assert(c == s0.visited@.last());
            assert(s0.visited@.contains(c)) by {
                assert(s0.visited@[s0.visited@.len() - 1] == c);
            }
            assert(ci < s0.k());
            assert(y.len() > 0);
            assert(!self.visited@.contains(c)) by {
                if self.visited@.contains(c) {
                    let i = choose|i: int| 0 <= i < self.visited@.len() && self.visited@[i] == c;
                    assert(s0.visited@[i] == c);
                    assert(s0.visited@[s0.visited@.len() - 1] == c);
                }
            }
        }
        let mut ylist: Vec<usize> = Vec::new();
        self.yes.set_and_swap(c, &mut ylist);
        let mut i: usize = 0;
        while i < ylist.len()
            invariant
                i <= ylist@.len(),
                ylist@ == y,
                y == s0.yes_of(ci),
                0 <= ci < s0.k(),
                s0.wf(),
                self.class_id == s0.class_id,
                self.no == s0.no,
                self.yes@.len() == s0.yes@.len(),
                self.yes@[ci]@.len() == 0,
                forall|d: int| 0 <= d < s0.k() && d != ci ==> #[trigger] self.yes@[d] == s0.yes@[d],
                self.visited@ == s0.visited@.drop_last(),
                self.marked@.len() == s0.marked@.len(),
                forall|x: usize| (x as int) < self.marked@.len() ==> #[trigger] self.marked@[x as int] == (s0.marked@[x as int] && !y.subrange(0, i as int).contains(x)),
            decreases ylist@.len() - i,
        {
            let x = ylist[i];
            proof {
                assert(y.contains(x)) by {
                    assert(y[i as int] == x);
                }
                assert((x as int) < s0.len());
            }
            self.marked.set(x, false);
            i = i + 1;
            proof {
                assert forall|z: usize| (z as int) < self.marked@.len() implies #[trigger] self.marked@[z as int] == (s0.marked@[z as int] && !y.subrange(0, i as int).contains(z)) by {
                    let a = y.subrange(0, i as int);
                    let b = y.subrange(0, i - 1);
                    if z == x {
                        assert(a[i - 1] == x);
                    } else {
                        if a.contains(z) {
                            let j = choose|j: int| 0 <= j < a.len() && a[j] == z;
                            assert(j < i - 1);
                            assert(b[j] == z);
                        }
                        if b.contains(z) {
                            let j = choose|j: int| 0 <= j < b.len() && b[j] == z;
                            assert(a[j] == z);
                        }
                    }
                }
            }
        }
        proof {
            assert(y.subrange(0, y.len() as int) == y);
        }
        let m = self.no[c].len();
        let ghost kl: Seq<usize>;
        let ghost ml: Seq<usize>;
        if m == 0 {
            self.no.set(c, ylist);
            proof {
                kl = y;
                ml = Seq::empty();
            }
        } else {
            let new_id = self.no.len();
            let mut moved = ylist;
            if m < moved.len() {
                self.no.set_and_swap(c, &mut moved);
                proof {
                    kl = y;
                    ml = nn;
                }
            } else {
                proof {
                    kl = nn;
                    ml = y;
                }
            }
            let ghost before = *self;
            let mut j: usize = 0;
            while j < moved.len()
                invariant
                    j <= moved@.len(),
                    self.no == before.no,
                    self.yes == before.yes,
                    self.marked == before.marked,
                    self.visited == before.visited,
                    moved@ == ml,
                    ml == nn || ml == y,
                    nn == s0.no_of(ci),
                    y == s0.yes_of(ci),
                    0 <= ci < s0.k(),
                    s0.wf(),
                    new_id == s0.k(),
                    self.class_id@.len() == s0.class_id@.len(),
                    forall|x: usize| (x as int) < self.class_id@.len() ==> #[trigger] self.class_id@[x as int] == if ml.subrange(0, j as int).contains(x) { new_id } else { s0.class_id@[x as int] },
                decreases moved@.len() - j,
            {
                let x = moved[j];
                proof {
                    assert(ml.contains(x)) by {
                        assert(ml[j as int] == x);
                    }
                    if ml == nn {
                        assert(s0.no_of(ci).contains(x));
                    } else {
                        assert(s0.yes_of(ci).contains(x));
                    }
                    assert((x as int) < s0.len());
                }
                self.class_id.set(x, new_id);
                j = j + 1;
                proof {
                    assert forall|z: usize| (z as int) < self.class_id@.len() implies #[trigger] self.class_id@[z as int] == if ml.subrange(0, j as int).contains(z) { new_id } else { s0.class_id@[z as int] } by {
                        let a = ml.subrange(0, j as int);
                        let b = ml.subrange(0, j - 1);
                        if z == x {
                            assert(a[j - 1] == x);
                        } else {
                            if a.contains(z) {
                                let q = choose|q: int| 0 <= q < a.len() && a[q] == z;
                                assert(q < j - 1);
                                assert(b[q] == z);
                            }
                            if b.contains(z) {
                                let q = choose|q: int| 0 <= q < b.len() && b[q] == z;
                                assert(a[q] == z);
                            }
                        }
                    }
                }
            }
            proof {
                assert(ml.subrange(0, ml.len() as int) == ml);
            }
            self.no.push(moved);
            self.yes.push(Vec::new());
            queue.enqueue(new_id);
        }
        proof {
            self.lemma_refined(s0, ci, kl, ml);
        }
    }

    /// Class `c` of `orig` has been refined since `orig` was current: it was
    /// marked in `orig` and no longer is.
    pub open spec fn refined_since(&self, orig: Partition, c: int) -> bool {
        orig.visited_classes().contains(c as usize) && !self.visited_classes().contains(c as usize)
    }

    /// Splits every class that has both marked and unmarked members: the
    /// smaller of its two subsets (the marked one when they are equally large)
    /// gets a new class id, and the new id is queued.  Afterwards no member is
    /// marked.
    pub fn finalize_split(&mut self, queue: &mut LifoQueue)
        requires
            old(self).wf(),
        ensures
            final(self).wf(),
            final(self).settled(),
            final(self).len() == old(self).len(),
            final(self).k() >= old(self).k(),
            final(queue)@ == old(queue)@ + Seq::new(
                (final(self).k() - old(self).k()) as nat,
                |i: int| (old(self).k() + i) as usize,
            ),
            forall|x: usize|
                (x as int) < old(self).len() && !old(self).moves(x) ==> #[trigger] final(self).class_of(
                    x as int,
                ) == old(self).class_of(x as int),
            forall|x: usize|
                (x as int) < old(self).len() && old(self).moves(x) ==> #[trigger] final(self).class_of(
                    x as int,
                ) >= old(self).k(),
            forall|x: usize, z: usize|
                (x as int) < old(self).len() && (z as int) < old(self).len() && old(self).moves(x)
                    && old(self).moves(z) ==> (#[trigger] final(self).class_of(x as int)
                    == #[trigger] final(self).class_of(z as int) <==> old(self).class_of(x as int)
                    == old(self).class_of(z as int)),
            old(self).nonempty() ==> final(self).nonempty(),
    {
        let ghost orig = *self;
        let ghost q0 = queue@;
        proof {
            assert(orig == *old(self));
            assert(queue@.len() == q0.len() + 0);
            assert(queue@ =~= q0 + Seq::new(0, |i: int| (orig.k() + i) as usize));
            assert(self.visited_classes() =~= orig.visited_classes().take(self.visited_classes().len() as int));
        }
        while self.visited.len() > 0
            invariant
                self.wf(),
                orig.wf(),
                self.len() == orig.len(),
                self.k() >= orig.k(),
                self.visited_classes().len() <= orig.visited_classes().len(),
                self.visited_classes() == orig.visited_classes().take(self.visited_classes().len() as int),
                queue@ == q0 + Seq::new((self.k() - orig.k()) as nat, |i: int| (orig.k() + i) as usize),
                forall|d: int|
                    0 <= d < orig.k() && !self.refined_since(orig, d) ==> #[trigger] self.no_of(d) == orig.no_of(d),
                forall|d: int|
                    0 <= d < orig.k() && !self.refined_since(orig, d) ==> #[trigger] self.yes_of(d) == orig.yes_of(d),
                forall|x: usize|
                    (x as int) < orig.len() && !(self.refined_since(orig, orig.class_of(x as int)) && orig.moves(x))
                        ==> #[trigger] self.class_of(x as int) == orig.class_of(x as int),
                forall|x: usize|
                    (x as int) < orig.len() && self.refined_since(orig, orig.class_of(x as int)) && orig.moves(x)
                        ==> #[trigger] self.class_of(x as int) >= orig.k(),
                forall|x: usize, z: usize|
                    (x as int) < orig.len() && (z as int) < orig.len() && self.refined_since(orig, orig.class_of(x as int))
                        && orig.moves(x) && self.refined_since(orig, orig.class_of(z as int)) && orig.moves(z)
                        ==> (#[trigger] self.class_of(x as int) == #[trigger] self.class_of(z as int)
                        <==> orig.class_of(x as int) == orig.class_of(z as int)),
                forall|x: usize|
                    (x as int) < orig.len() ==> #[trigger] self.in_yes(x) == (orig.in_yes(x)
                        && !self.refined_since(orig, orig.class_of(x as int))),
                orig.nonempty() ==> self.nonempty(),
            decreases self.visited_classes().len(),
        {
            let ghost pre = *self;
            let ghost q1 = queue@;
            proof {
                self.lemma_wf();
                orig.lemma_wf();
            }
            self.refine_last(queue);
            proof {
                self.lemma_finalize_step(orig, pre, q0, q1, queue@);
            }
        }
        proof {
            assert forall|x: usize| (x as int) < orig.len() && orig.moves(x) implies #[trigger] self.refined_since(orig, orig.class_of(x as int)) by {
                orig.lemma_wf();
                let c = orig.class_of(x as int);
                assert(orig.yes_of(c).len() > 0 <==> orig.visited@.contains(c as usize));
            }
        }
    }

    /// One round of `finalize_split` keeps its loop invariant.
    #[verifier::spinoff_prover]
    #[verifier::rlimit(100)]
    proof fn lemma_finalize_step(&self, orig: Partition, pre: Partition, q0: Seq<usize>, q1: Seq<usize>, q2: Seq<usize>)
        requires
            pre.wf(),
            orig.wf(),
            pre.len() == orig.len(),
            pre.k() >= orig.k(),
            pre.visited_classes().len() > 0,
            pre.visited_classes().len() <= orig.visited_classes().len(),
            pre.visited_classes() == orig.visited_classes().take(pre.visited_classes().len() as int),
            q1 == q0 + Seq::new((pre.k() - orig.k()) as nat, |i: int| (orig.k() + i) as usize),
            forall|d: int|
                0 <= d < orig.k() && !pre.refined_since(orig, d) ==> #[trigger] pre.no_of(d) == orig.no_of(d),
            forall|d: int|
                0 <= d < orig.k() && !pre.refined_since(orig, d) ==> #[trigger] pre.yes_of(d) == orig.yes_of(d),
            forall|x: usize|
                (x as int) < orig.len() && !(pre.refined_since(orig, orig.class_of(x as int)) && orig.moves(x))
                    ==> #[trigger] pre.class_of(x as int) == orig.class_of(x as int),
            forall|x: usize|
                (x as int) < orig.len() && pre.refined_since(orig, orig.class_of(x as int)) && orig.moves(x)
                    ==> #[trigger] pre.class_of(x as int) >= orig.k(),
            forall|x: usize, z: usize|
                (x as int) < orig.len() && (z as int) < orig.len() && pre.refined_since(orig, orig.class_of(x as int))
                    && orig.moves(x) && pre.refined_since(orig, orig.class_of(z as int)) && orig.moves(z)
                    ==> (#[trigger] pre.class_of(x as int) == #[trigger] pre.class_of(z as int)
                    <==> orig.class_of(x as int) == orig.class_of(z as int)),
            forall|x: usize|
                (x as int) < orig.len() ==> #[trigger] pre.in_yes(x) == (orig.in_yes(x)
                    && !pre.refined_since(orig, orig.class_of(x as int))),
            orig.nonempty() ==> pre.nonempty(),
            // what refine_last did
            self.wf(),
            self.len() == pre.len(),
            self.visited_classes() == pre.visited_classes().drop_last(),
            pre.last_visited() == pre.visited_classes().last() as int,
            self.k() == if pre.no_of(pre.last_visited()).len() > 0 { pre.k() + 1 } else { pre.k() },
            q2 == if pre.no_of(pre.last_visited()).len() > 0 { q1.push(pre.k() as usize) } else { q1 },
            forall|x: usize| (x as int) < pre.len() ==> #[trigger] self.class_of(x as int) == if pre.class_of(x as int) == pre.last_visited() && pre.moves(x) {
                pre.k() as int
            } else {
                pre.class_of(x as int)
            },
            forall|x: usize| (x as int) < pre.len() ==> #[trigger] self.in_yes(x) == (pre.in_yes(x) && pre.class_of(x as int) != pre.last_visited()),
            forall|d: int| 0 <= d < pre.k() && d != pre.last_visited() ==> #[trigger] self.no_of(d) == pre.no_of(d) && self.yes_of(d) == pre.yes_of(d),
            pre.nonempty() ==> self.nonempty(),
        ensures
            self.k() >= orig.k(),
            self.visited_classes().len() <= orig.visited_classes().len(),
            self.visited_classes() == orig.visited_classes().take(self.visited_classes().len() as int),
            q2 == q0 + Seq::new((self.k() - orig.k()) as nat, |i: int| (orig.k() + i) as usize),
            forall|d: int|
                0 <= d < orig.k() && !self.refined_since(orig, d) ==> #[trigger] self.no_of(d) == orig.no_of(d),
            forall|d: int|
                0 <= d < orig.k() && !self.refined_since(orig, d) ==> #[trigger] self.yes_of(d) == orig.yes_of(d),
            forall|x: usize|
                (x as int) < orig.len() && !(self.refined_since(orig, orig.class_of(x as int)) && orig.moves(x))
                    ==> #[trigger] self.class_of(x as int) == orig.class_of(x as int),
            forall|x: usize|
                (x as int) < orig.len() && self.refined_since(orig, orig.class_of(x as int)) && orig.moves(x)
                    ==> #[trigger] self.class_of(x as int) >= orig.k(),
            forall|x: usize, z: usize|
                (x as int) < orig.len() && (z as int) < orig.len() && self.refined_since(orig, orig.class_of(x as int))
                    && orig.moves(x) && self.refined_since(orig, orig.class_of(z as int)) && orig.moves(z)
                    ==> (#[trigger] self.class_of(x as int) == #[trigger] self.class_of(z as int)
                    <==> orig.class_of(x as int) == orig.class_of(z as int)),
            forall|x: usize|
                (x as int) < orig.len() ==> #[trigger] self.in_yes(x) == (orig.in_yes(x)
                    && !self.refined_since(orig, orig.class_of(x as int))),
            orig.nonempty() ==> self.nonempty(),
    {
        let v = orig.visited_classes();
        let j = pre.visited_classes().len() as int;
        let c = pre.last_visited();
        pre.lemma_wf();
        orig.lemma_wf();
        self.lemma_wf();
        assert(c == v[j - 1] as int);
        assert(orig.k() <= usize::MAX) by {
            assert(orig.no@.len() == orig.no.len());
        }
        assert(self.visited_classes() =~= v.take(j - 1));
        assert(0 <= c < orig.k()) by {
            assert(orig.visited@[j - 1] == v[j - 1]);
        }
        // refined_since: c becomes refined; others keep their status
        assert forall|d: int| 0 <= d < orig.k() implies #[trigger] self.refined_since(orig, d) == (pre.refined_since(orig, d) || d == c) by {
            let pv = pre.visited_classes();
            let sv = self.visited_classes();
            if d == c {
                assert(v.contains(d as usize)) by {
                    assert(v[j - 1] == d as usize);
                }
                if sv.contains(d as usize) {
                    let i = choose|i: int| 0 <= i < sv.len() && sv[i] == d as usize;
                    assert(v[i] == d as usize);
                    assert(orig.visited@.no_duplicates());
                    assert(orig.visited@[i] == orig.visited@[j - 1]);
                }
                assert(pv.contains(d as usize)) by {
                    assert(pv[j - 1] == d as usize);
                }
            } else {
                if sv.contains(d as usize) {
                    let i = choose|i: int| 0 <= i < sv.len() && sv[i] == d as usize;
                    assert(pv[i] == d as usize);
                }
                if pv.contains(d as usize) {
                    let i = choose|i: int| 0 <= i < pv.len() && pv[i] == d as usize;
                    if i < j - 1 {
                        assert(sv[i] == d as usize);
                    } else {
                        assert(pv[j - 1] == c as usize);
                    }
                }
            }
        }
        assert(!pre.refined_since(orig, c)) by {
            assert(pre.visited_classes()[j - 1] == c as usize);
        }
        assert(pre.no_of(c) == orig.no_of(c) && pre.yes_of(c) == orig.yes_of(c));
        // moves agree on the refined class
        assert forall|x: usize| (x as int) < orig.len() && orig.class_of(x as int) == c implies #[trigger] pre.moves(x) == orig.moves(x) by {
            assert(pre.class_of(x as int) == orig.class_of(x as int));
            assert(pre.in_yes(x) == orig.in_yes(x));
        }
        assert forall|x: usize| (x as int) < orig.len() && pre.class_of(x as int) == c implies #[trigger] orig.class_of(x as int) == c by {
            if pre.refined_since(orig, orig.class_of(x as int)) && orig.moves(x) {
                assert(pre.class_of(x as int) >= orig.k());
            }
        }
        let split = pre.no_of(c).len() > 0;
        assert forall|x: usize| (x as int) < orig.len() && !(self.refined_since(orig, orig.class_of(x as int)) && orig.moves(x)) implies #[trigger] self.class_of(x as int) == orig.class_of(x as int) by {
            let ox = orig.class_of(x as int);
            assert(0 <= ox < orig.k());
            assert(self.refined_since(orig, ox) == (pre.refined_since(orig, ox) || ox == c));
            assert(pre.class_of(x as int) == orig.class_of(x as int));
            if pre.class_of(x as int) == c {
                assert(pre.moves(x) == orig.moves(x));
            }
        }
        assert forall|x: usize| (x as int) < orig.len() && self.refined_since(orig, orig.class_of(x as int)) && orig.moves(x) implies #[trigger] self.class_of(x as int) >= orig.k() by {
            let ox = orig.class_of(x as int);
            assert(self.refined_since(orig, ox) == (pre.refined_since(orig, ox) || ox == c));
            if ox == c {
                assert(pre.class_of(x as int) == c);
                assert(pre.moves(x));
            } else {
                assert(pre.class_of(x as int) >= orig.k());
                assert(pre.class_of(x as int) != c);
            }
        }
        assert forall|x: usize, z: usize|
            (x as int) < orig.len() && (z as int) < orig.len() && self.refined_since(orig, orig.class_of(x as int))
                && orig.moves(x) && self.refined_since(orig, orig.class_of(z as int)) && orig.moves(z)
            implies (#[trigger] self.class_of(x as int) == #[trigger] self.class_of(z as int)
                <==> orig.class_of(x as int) == orig.class_of(z as int)) by {
            let ox = orig.class_of(x as int);
            let oz = orig.class_of(z as int);
            assert(self.refined_since(orig, ox) == (pre.refined_since(orig, ox) || ox == c));
            assert(self.refined_since(orig, oz) == (pre.refined_since(orig, oz) || oz == c));
            if ox == c {
                assert(pre.class_of(x as int) == c);
                assert(pre.moves(x));
                assert(self.class_of(x as int) == pre.k());
            } else {
                assert(pre.class_of(x as int) >= orig.k());
                assert(pre.class_of(x as int) < pre.k());
                assert(self.class_of(x as int) == pre.class_of(x as int));
            }
            if oz == c {
                assert(pre.class_of(z as int) == c);
                assert(pre.moves(z));
                assert(self.class_of(z as int) == pre.k());
            } else {
                assert(pre.class_of(z as int) >= orig.k());
                assert(pre.class_of(z as int) < pre.k());
                assert(self.class_of(z as int) == pre.class_of(z as int));
            }
        }
        assert forall|x: usize| (x as int) < orig.len() implies #[trigger] self.in_yes(x) == (orig.in_yes(x) && !self.refined_since(orig, orig.class_of(x as int))) by {
            let ox = orig.class_of(x as int);
            assert(self.refined_since(orig, ox) == (pre.refined_since(orig, ox) || ox == c));
            assert(pre.in_yes(x) == (orig.in_yes(x) && !pre.refined_since(orig, ox)));
            if pre.refined_since(orig, ox) && orig.moves(x) {
                assert(pre.class_of(x as int) >= orig.k());
            } else {
                assert(pre.class_of(x as int) == ox);
            }
        }
        assert forall|d: int| 0 <= d < orig.k() && !self.refined_since(orig, d) implies #[trigger] self.no_of(d) == orig.no_of(d) by {
            assert(self.refined_since(orig, d) == (pre.refined_since(orig, d) || d == c));
            assert(self.no_of(d) == pre.no_of(d) && self.yes_of(d) == pre.yes_of(d));
            assert(pre.no_of(d) == orig.no_of(d));
        }
        assert forall|d: int| 0 <= d < orig.k() && !self.refined_since(orig, d) implies #[trigger] self.yes_of(d) == orig.yes_of(d) by {
            assert(self.refined_since(orig, d) == (pre.refined_since(orig, d) || d == c));
            assert(self.no_of(d) == pre.no_of(d) && self.yes_of(d) == pre.yes_of(d));
            assert(pre.yes_of(d) == orig.yes_of(d));
        }
        if split {
            assert(q2 =~= q0 + Seq::new((self.k() - orig.k()) as nat, |i: int| (orig.k() + i) as usize));
        } else {
            assert(q2 =~= q0 + Seq::new((self.k() - orig.k()) as nat, |i: int| (orig.k() + i) as usize));
        }
    }

    /// `self` is what `refine_last` makes of `s0` when it refines class `ci`,
    /// keeping the members `kl` and moving the members `ml` to a new class.
    closed spec fn refined_from(&self, s0: Partition, ci: int, kl: Seq<usize>, ml: Seq<usize>) -> bool {
        &&& s0.wf()
        &&& s0.visited@.len() > 0
        &&& ci == s0.visited@.last() as int
        &&& 0 <= ci < s0.k()
        &&& s0.k() <= usize::MAX
        &&& s0.yes_of(ci).len() > 0
        &&& s0.no_of(ci).len() == 0 ==> kl == s0.yes_of(ci) && ml.len() == 0 && self.no@.len()
                    == s0.no@.len()
        &&& s0.no_of(ci).len() > 0 ==> (if s0.no_of(ci).len() < s0.yes_of(ci).len() {
                    kl == s0.yes_of(ci) && ml == s0.no_of(ci)
                } else {
                    kl == s0.no_of(ci) && ml == s0.yes_of(ci)
                }) && self.no@.len() == s0.no@.len() + 1 && self.no@[s0.k() as int]@ == ml
                    && self.yes@[s0.k() as int]@.len() == 0
        &&& self.yes@.len() == self.no@.len()
        &&& self.no@[ci]@ == kl
        &&& self.yes@[ci]@.len() == 0
        &&& forall|d: int|
                    0 <= d < s0.k() && d != ci ==> #[trigger] self.no@[d] == s0.no@[d]
                        && self.yes@[d] == s0.yes@[d]
        &&& self.visited@ == s0.visited@.drop_last()
        &&& self.marked@.len() == s0.marked@.len()
        &&& forall|x: usize|
                    (x as int) < self.marked@.len() ==> #[trigger] self.marked@[x as int] == (s0.marked@[x as int]
                        && !s0.yes_of(ci).contains(x))
        &&& self.class_id@.len() == s0.class_id@.len()
        &&& forall|x: usize|
                    (x as int) < self.class_id@.len() ==> #[trigger] self.class_id@[x as int] == if ml.contains(
                        x,
                    ) {
                        s0.k() as usize
                    } else {
                        s0.class_id@[x as int]
                    }
    }

    /// Where the members of the refined class end up.
    #[verifier::spinoff_prover]
    proof fn lemma_refined_members(&self, s0: Partition, ci: int, kl: Seq<usize>, ml: Seq<usize>)
        requires
            self.refined_from(s0, ci, kl, ml),
        ensures
            s0.len() <= usize::MAX,
            self.no@.len() >= s0.no@.len(),
            self.no@.len() <= s0.no@.len() + 1,
            ml.len() > 0 ==> self.no@.len() == s0.no@.len() + 1,
            self.len() == s0.len(),
            ml.len() > 0 ==> s0.no_of(ci).len() > 0,
            s0.no_of(ci).len() > 0 ==> kl.len() > 0 && ml.len() > 0,
            forall|x: usize| #[trigger] ml.contains(x) ==> (x as int) < s0.len() && s0.class_of(x as int) == ci,
            forall|x: usize| #[trigger] kl.contains(x) ==> (x as int) < s0.len() && s0.class_of(x as int) == ci && !ml.contains(x),
            forall|x: usize| (x as int) < s0.len() && s0.class_of(x as int) == ci ==> #[trigger] kl.contains(x) || ml.contains(x),
            kl.no_duplicates(),
            ml.no_duplicates(),
            forall|x: usize| (x as int) < s0.len() ==> #[trigger] self.class_of(x as int) == if ml.contains(x) { s0.k() as int } else { s0.class_of(x as int) },
            forall|d: int| 0 <= d < s0.k() && d != ci ==> #[trigger] self.no_of(d) == s0.no_of(d),
            forall|d: int| 0 <= d < s0.k() && d != ci ==> #[trigger] self.yes_of(d) == s0.yes_of(d),
    {
        let n = s0.len() as int;
        let y = s0.yes_of(ci);
        let nn = s0.no_of(ci);
        s0.lemma_wf();
        assert(n <= usize::MAX) by {
            assert(s0.class_id@.len() == s0.class_id.len());
        }
        assert forall|x: usize| #[trigger] ml.contains(x) implies (x as int) < n && s0.class_of(x as int) == ci by {
            if nn.len() == 0 {
                let q = choose|q: int| 0 <= q < ml.len() && ml[q] == x;
            } else if ml == nn {
                assert(nn.contains(x));
            } else {
                assert(y.contains(x));
            }
        }
        assert forall|x: usize| #[trigger] kl.contains(x) implies (x as int) < n && s0.class_of(x as int) == ci && !ml.contains(x) by {
            if kl == nn {
                assert(nn.contains(x));
                if ml.contains(x) {
                    assert(y.contains(x));
                }
            } else {
                assert(y.contains(x));
                if ml.contains(x) {
                    if nn.len() == 0 {
                        let q = choose|q: int| 0 <= q < ml.len() && ml[q] == x;
                    } else {
                        assert(nn.contains(x));
                    }
                }
            }
        }
        assert forall|x: usize| (x as int) < n && s0.class_of(x as int) == ci implies #[trigger] kl.contains(x) || ml.contains(x) by {
            assert(s0.no_of(s0.class_of(x as int)).contains(x) || s0.yes_of(s0.class_of(x as int)).contains(x));
            if nn.len() == 0 {
                if nn.contains(x) {
                    let q = choose|q: int| 0 <= q < nn.len() && nn[q] == x;
                }
            }
        }
        assert(nn.no_duplicates() && y.no_duplicates());
        assert forall|x: usize| (x as int) < n implies #[trigger] self.class_of(x as int) == if ml.contains(x) { s0.k() as int } else { s0.class_of(x as int) } by {
            assert(self.class_id@[x as int] == if ml.contains(x) { s0.k() as usize } else { s0.class_id@[x as int] });
        }
        assert forall|d: int| 0 <= d < s0.k() && d != ci implies #[trigger] self.no_of(d) == s0.no_of(d) by {
            assert(self.no@[d] == s0.no@[d] && self.yes@[d] == s0.yes@[d]);
        }
        assert forall|d: int| 0 <= d < s0.k() && d != ci implies #[trigger] self.yes_of(d) == s0.yes_of(d) by {
            assert(self.no@[d] == s0.no@[d] && self.yes@[d] == s0.yes@[d]);
        }
        if ml.len() > 0 {
            assert(ml.contains(ml[0]));
        }
    }

    /// The lists of the refined partition are consistent with its class ids.
    #[verifier::spinoff_prover]
    #[verifier::rlimit(60)]
    proof fn lemma_refined_lists(&self, s0: Partition, ci: int, kl: Seq<usize>, ml: Seq<usize>)
        requires
            self.refined_from(s0, ci, kl, ml),
        ensures
            forall|e: int| 0 <= e < self.len() ==> (#[trigger] self.class_of(e)) < self.k(),
            forall|c: int| 0 <= c < self.k() ==> (#[trigger] self.no_of(c)).no_duplicates(),
            forall|c: int| 0 <= c < self.k() ==> (#[trigger] self.yes_of(c)).no_duplicates(),
            forall|c: int, x: usize|
                0 <= c < self.k() && #[trigger] self.no_of(c).contains(x) ==> (x as int) < self.len()
                    && self.class_of(x as int) == c && !self.yes_of(c).contains(x),
            forall|c: int, x: usize|
                0 <= c < self.k() && #[trigger] self.yes_of(c).contains(x) ==> (x as int) < self.len()
                    && self.class_of(x as int) == c,
            forall|e: usize|
                (e as int) < self.len() ==> #[trigger] self.no_of(self.class_of(e as int)).contains(e)
                    || self.yes_of(self.class_of(e as int)).contains(e),
    {
        self.lemma_refined_members(s0, ci, kl, ml);
        s0.lemma_wf();
        let n = s0.len() as int;
        let k = s0.k() as int;
        let k1 = self.k() as int;
        assert forall|x: int| 0 <= x < n implies #[trigger] self.class_of(x) < k1 by {
            let xu = x as usize;
            assert(xu as int == x);
            assert(self.class_of(xu as int) == if ml.contains(xu) { k } else { s0.class_of(xu as int) });
        }
        assert forall|d: int| 0 <= d < k1 implies (#[trigger] self.no_of(d)).no_duplicates() by {
            if d != ci && d != k {
                assert(0 <= d < k);
                assert(self.no_of(d) == s0.no_of(d));
            }
        }
        assert forall|d: int| 0 <= d < k1 implies (#[trigger] self.yes_of(d)).no_duplicates() by {
            if d != ci && d != k {
                assert(0 <= d < k);
                assert(self.no_of(d) == s0.no_of(d) && self.yes_of(d) == s0.yes_of(d));
            }
        }
        assert forall|d: int, x: usize| 0 <= d < k1 && #[trigger] self.yes_of(d).contains(x) implies (x as int) < n && self.class_of(x as int) == d by {
            if d == ci || d == k {
                let q = choose|q: int| 0 <= q < self.yes_of(d).len() && self.yes_of(d)[q] == x;
            } else {
                assert(0 <= d < k);
                assert(self.no_of(d) == s0.no_of(d) && self.yes_of(d) == s0.yes_of(d));
                assert(s0.class_of(x as int) == d);
                if ml.contains(x) {
                    assert(s0.class_of(x as int) == ci);
                }
            }
        }
        assert forall|d: int, x: usize| 0 <= d < k1 && #[trigger] self.no_of(d).contains(x) implies (x as int) < n && self.class_of(x as int) == d && !self.yes_of(d).contains(x) by {
            if d == ci {
                assert(kl.contains(x));
                if self.yes_of(d).contains(x) {
                    let q = choose|q: int| 0 <= q < self.yes_of(d).len() && self.yes_of(d)[q] == x;
                }
            } else if d == k {
                assert(ml.contains(x));
                if self.yes_of(d).contains(x) {
                    let q = choose|q: int| 0 <= q < self.yes_of(d).len() && self.yes_of(d)[q] == x;
                }
            } else {
                assert(0 <= d < k);
                assert(self.no_of(d) == s0.no_of(d) && self.yes_of(d) == s0.yes_of(d));
                assert(s0.class_of(x as int) == d);
                if ml.contains(x) {
                    assert(s0.class_of(x as int) == ci);
                }
            }
        }
        assert forall|x: usize| (x as int) < n implies #[trigger] self.no_of(self.class_of(x as int)).contains(x) || self.yes_of(self.class_of(x as int)).contains(x) by {
            let d = s0.class_of(x as int);
            if d == ci {
                assert(kl.contains(x) || ml.contains(x));
            } else {
                assert(s0.no_of(s0.class_of(x as int)).contains(x) || s0.yes_of(s0.class_of(x as int)).contains(x));
                if ml.contains(x) {
                    assert(s0.class_of(x as int) == ci);
                }
                assert(0 <= d < k);
                assert(self.no_of(d) == s0.no_of(d) && self.yes_of(d) == s0.yes_of(d));
            }
        }
    }

    /// The marks and the visited list of the refined partition are consistent.
    #[verifier::spinoff_prover]
    #[verifier::rlimit(60)]
    proof fn lemma_refined_marks(&self, s0: Partition, ci: int, kl: Seq<usize>, ml: Seq<usize>)
        requires
            self.refined_from(s0, ci, kl, ml),
        ensures
            forall|e: usize|
                (e as int) < self.len() ==> #[trigger] self.marked@[e as int] == self.yes_of(
                    self.class_of(e as int),
                ).contains(e),
            self.visited@.no_duplicates(),
            forall|i: int| 0 <= i < self.visited@.len() ==> (#[trigger] self.visited@[i] as int) < self.k(),
            forall|c: int|
                0 <= c < self.k() ==> ((#[trigger] self.yes_of(c)).len() > 0 <==> self.visited@.contains(
                    c as usize,
                )),
    {
        self.lemma_refined_members(s0, ci, kl, ml);
        s0.lemma_wf();
        let n = s0.len() as int;
        let k = s0.k() as int;
        let k1 = self.k() as int;
        let y = s0.yes_of(ci);
        assert forall|x: usize| (x as int) < n implies #[trigger] self.marked@[x as int] == self.yes_of(self.class_of(x as int)).contains(x) by {
            assert(s0.marked@[x as int] == s0.yes_of(s0.class_of(x as int)).contains(x));
            let d = s0.class_of(x as int);
            if ml.contains(x) {
                assert(s0.class_of(x as int) == ci);
            }
            if d == ci {
                let e = self.class_of(x as int);
                if self.yes_of(e).contains(x) {
                    let q = choose|q: int| 0 <= q < self.yes_of(e).len() && self.yes_of(e)[q] == x;
                }
            } else {
                assert(0 <= d < k);
                assert(self.no_of(d) == s0.no_of(d) && self.yes_of(d) == s0.yes_of(d));
                if y.contains(x) {
                    assert(s0.class_of(x as int) == ci);
                }
            }
        }
        assert(self.visited@.no_duplicates()) by {
            let v = s0.visited@;
            assert forall|a: int, b: int| 0 <= a < self.visited@.len() && 0 <= b < self.visited@.len() && a != b implies self.visited@[a] != self.visited@[b] by {
                assert(self.visited@[a] == v[a] && self.visited@[b] == v[b]);
            }
        }
        assert forall|i: int| 0 <= i < self.visited@.len() implies (#[trigger] self.visited@[i] as int) < k1 by {
            assert(self.visited@[i] == s0.visited@[i]);
        }
        assert forall|d: int| 0 <= d < k1 implies ((#[trigger] self.yes_of(d)).len() > 0 <==> self.visited@.contains(d as usize)) by {
            let v = s0.visited@;
            if self.visited@.contains(d as usize) {
                let i = choose|i: int| 0 <= i < self.visited@.len() && self.visited@[i] == d as usize;
                assert(v[i] == d as usize);
                assert(v.contains(d as usize));
                assert(d < k);
                if d == ci {
                    assert(v[v.len() - 1] == d as usize);
                }
            }
            if d < k && d != ci {
                assert(0 <= d < k);
                assert(self.no_of(d) == s0.no_of(d) && self.yes_of(d) == s0.yes_of(d));
                assert(s0.yes_of(d).len() > 0 <==> v.contains(d as usize));
                if v.contains(d as usize) {
                    let i = choose|i: int| 0 <= i < v.len() && v[i] == d as usize;
                    if i == v.len() - 1 {
                        assert(v[v.len() - 1] == ci as usize);
                    } else {
                        assert(self.visited@[i] == d as usize);
                    }
                }
            }
        }
    }

    /// The partition that `refine_last` builds is consistent and relates to
    /// the partition it started from as its contract states.
    #[verifier::spinoff_prover]
    #[verifier::rlimit(100)]
    proof fn lemma_refined(&self, s0: Partition, ci: int, kl: Seq<usize>, ml: Seq<usize>)
        requires
            self.refined_from(s0, ci, kl, ml),
        ensures
            self.wf(),
            forall|x: usize| (x as int) < s0.len() ==> #[trigger] self.class_of(x as int) == if s0.class_of(x as int) == ci && s0.moves(x) {
                s0.k() as int
            } else {
                s0.class_of(x as int)
            },
            forall|x: usize| (x as int) < s0.len() ==> #[trigger] self.in_yes(x) == (s0.in_yes(x) && s0.class_of(x as int) != ci),
            forall|d: int| 0 <= d < s0.k() && d != ci ==> #[trigger] self.no_of(d) == s0.no_of(d) && self.yes_of(d) == s0.yes_of(d),
            s0.nonempty() ==> self.nonempty(),
    {
        self.lemma_refined_members(s0, ci, kl, ml);
        self.lemma_refined_lists(s0, ci, kl, ml);
        self.lemma_refined_marks(s0, ci, kl, ml);
        s0.lemma_wf();
        let n = s0.len() as int;
        let k = s0.k() as int;
        let y = s0.yes_of(ci);
        let nn = s0.no_of(ci);
        assert(self.wf());
        assert forall|x: usize| (x as int) < n implies #[trigger] self.class_of(x as int) == if s0.class_of(x as int) == ci && s0.moves(x) {
            k
        } else {
            s0.class_of(x as int)
        } by {
            if s0.class_of(x as int) == ci {
                assert(s0.no_of(s0.class_of(x as int)).contains(x) || s0.yes_of(s0.class_of(x as int)).contains(x));
                if nn.contains(x) {
                    assert(!y.contains(x));
                }
            }
        }
        assert forall|x: usize| (x as int) < n implies #[trigger] self.in_yes(x) == (s0.in_yes(x) && s0.class_of(x as int) != ci) by {
            assert(self.marked@[x as int] == self.yes_of(self.class_of(x as int)).contains(x));
            assert(s0.marked@[x as int] == s0.yes_of(s0.class_of(x as int)).contains(x));
            if y.contains(x) {
                assert(s0.class_of(x as int) == ci);
            }
        }
        if s0.nonempty() {
            assert forall|d: int| 0 <= d < self.k() implies #[trigger] self.has_member(d) by {
                if d == k {
                    let x = ml[0];
                    assert(ml.contains(x));
                    assert(self.class_of(x as int) == k);
                } else if d == ci {
                    let x = kl[0];
                    assert(kl.len() > 0);
                    assert(kl.contains(x));
                    assert(self.class_of(x as int) == ci);
                } else {
                    assert(s0.has_member(d));
                    let x = choose|x: int| 0 <= x < n && #[trigger] s0.class_of(x) == d;
                    let xu = x as usize;
                    assert(xu as int == x);
                    assert(self.class_of(xu as int) == d);
                }
            }
        }
    }
}

} // verus!
