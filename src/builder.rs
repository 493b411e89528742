//! Building incidence structures rank by rank, from the bottom up or from the
//! top down.

use vstd::prelude::*;
use crate::abs::{Abstract, Element, ElementList};

verus! {

/// The subelement lists of `elements`.
pub open spec fn subs_lists(elements: Seq<Element>) -> Seq<Seq<usize>> {
    elements.map_values(|e: Element| e.subs@)
}

/// The indices among the first `n` of `lists` that hold `s`, in increasing
/// order.
pub open spec fn incident_upto(lists: Seq<Seq<usize>>, s: usize, n: int) -> Seq<usize>
    decreases n,
{
    if n <= 0 {
        Seq::empty()
    } else {
        let r = incident_upto(lists, s, n - 1);
        if lists[n - 1].contains(s) {
            r.push((n - 1) as usize)
        } else {
            r
        }
    }
}

/// The indices of the lists of `lists` that hold `s`.
pub open spec fn incident(lists: Seq<Seq<usize>>, s: usize) -> Seq<usize> {
    incident_upto(lists, s, lists.len() as int)
}

proof fn lemma_incident_bounded(elements: Seq<Seq<usize>>, s: usize, n: int)
    requires
        0 <= n,
    ensures
        forall|k: int|
            0 <= k < incident_upto(elements, s, n).len() ==> #[trigger] incident_upto(elements, s, n)[k] < n,
        incident_upto(elements, s, n).len() > 0 ==> incident_upto(elements, s, n).last() == n - 1
            || incident_upto(elements, s, n).last() < n - 1,
    decreases n,
{
    if n > 0 {
        lemma_incident_bounded(elements, s, n - 1);
    }
}

impl Abstract {
    /// The elements of the top rank have no superelements yet.
    pub open spec fn top_open(&self) -> bool {
        &&& self.ranks@.len() >= 1
        &&& forall|i: int| 0 <= i < self.count(self.rank()) ==> #[trigger] self.sups(self.rank(), i).len() == 0
    }

    /// Element `i` of rank `r` is the same in both structures.
    pub open spec fn same_element(&self, other: &Abstract, r: int, i: int) -> bool {
        self.subs(r, i) == other.subs(r, i) && self.sups(r, i) == other.sups(r, i)
    }

    /// `self` is `old` with one more rank on top, whose elements have the
    /// subelement lists `elements`; the superelements of the former top rank
    /// are filled in from them.
    pub open spec fn pushed(&self, old: &Abstract, elements: Seq<Seq<usize>>) -> bool {
        let t = old.rank();
        &&& self.ranks@.len() == old.ranks@.len() + 1
        &&& forall|r: int| -1 <= r <= t ==> #[trigger] self.count(r) == old.count(r)
        &&& forall|r: int, i: int|
            -1 <= r < t && 0 <= i < old.count(r) ==> #[trigger] self.same_element(old, r, i)
        &&& forall|i: int|
            0 <= i < old.count(t) ==> #[trigger] self.subs(t, i) == old.subs(t, i) && self.sups(t, i)
                == incident(elements, i as usize)
        &&& self.count(t + 1) == elements.len()
        &&& forall|i: int|
            0 <= i < elements.len() ==> #[trigger] self.subs(t + 1, i) == elements[i]
                && self.sups(t + 1, i).len() == 0
    }

    /// Pushes a new top rank whose elements have the subelements listed in
    /// `elements`, and records them as superelements of the former top rank.
    pub fn push_subs(&mut self, elements: ElementList)
        requires
            old(self).top_open(),
            forall|i: int, k: int|
                0 <= i < elements@.len() && 0 <= k < elements@[i].subs@.len() ==> #[trigger] elements@[i].subs@[k]
                    < old(self).count(old(self).rank()),
        ensures
            final(self).pushed(old(self), subs_lists(elements@)),
            final(self).top_open(),
    {
        let ghost els = elements@;
        let ghost lists = subs_lists(els);
        let mut top = self.ranks.pop().unwrap();
        let ghost top0 = top@;
        let top_len = top.len();
        proof {
            assert(top0 == old(self).ranks@[old(self).ranks@.len() - 1]@);
            assert forall|s: int| 0 <= s < top0.len() implies (#[trigger] top0[s]).sups@.len() == 0 by {
                assert(old(self).sups(old(self).rank(), s).len() == 0);
            }
        }
        let mut i: usize = 0;
        while i < elements.len()
            invariant
                els == elements@,
                lists == subs_lists(els),
                0 <= i <= els.len(),
                top@.len() == top0.len(),
                top_len == top0.len(),
                forall|i: int, k: int|
                    0 <= i < els.len() && 0 <= k < els[i].subs@.len() ==> #[trigger] els[i].subs@[k]
                        < top0.len(),
                forall|s: int| 0 <= s < top@.len() ==> (#[trigger] top@[s]).subs@ == top0[s].subs@,
                forall|s: int| 0 <= s < top@.len() ==> (#[trigger] top@[s]).sups@ == top0[s].sups@ + incident_upto(lists, s as usize, i as int),
                forall|s: int| 0 <= s < top0.len() ==> (#[trigger] top0[s]).sups@.len() == 0,
            decreases els.len() - i,
        {
            let subs = &elements[i].subs;
            let mut j: usize = 0;
            while j < subs.len()
                invariant
                    els == elements@,
                    lists == subs_lists(els),
                    0 <= i < els.len(),
                    subs@ == els[i as int].subs@,
                    0 <= j <= subs@.len(),
                    top@.len() == top0.len(),
                    top_len == top0.len(),
                    forall|i: int, k: int|
                        0 <= i < els.len() && 0 <= k < els[i].subs@.len() ==> #[trigger] els[i].subs@[k]
                            < top0.len(),
                    forall|s: int| 0 <= s < top@.len() ==> (#[trigger] top@[s]).subs@ == top0[s].subs@,
                    forall|s: int| 0 <= s < top0.len() ==> (#[trigger] top0[s]).sups@.len() == 0,
                    forall|s: int|
                        0 <= s < top@.len() ==> (#[trigger] top@[s]).sups@ == incident_upto(lists, s as usize, i as int) + (
                        if subs@.take(j as int).contains(s as usize) {
                            seq![i as usize]
                        } else {
                            Seq::empty()
                        }),
                decreases subs@.len() - j,
            {
                let s = subs[j];
                assert(s < top0.len());
                let n = top[s].sups.len();
                let ghost prior = top@[s as int].sups@;
                proof {
                    lemma_incident_bounded(lists, s, i as int);
                    if subs@.take(j as int).contains(s) {
                        assert(prior.last() == i);
                    } else {
                        assert(prior == incident_upto(lists, s, i as int));
                        if n > 0 {
                            assert(prior[n - 1] < i);
                        }
                    }
                }
                let ghost top_before = top@;
                if n == 0 || top[s].sups[n - 1] != i {
                    top[s].sups.push(i);
                }
                proof {
                    assert forall|t: int| 0 <= t < top@.len() implies (#[trigger] top@[t]).sups@ == incident_upto(lists, t as usize, i as int) + (
                        if subs@.take(j + 1).contains(t as usize) {
                            seq![i as usize]
                        } else {
                            Seq::empty()
                        }) by {
                        assert(subs@.take(j + 1) == subs@.take(j as int).push(s));
                        assert(subs@.take(j + 1).contains(s)) by {
                            assert(subs@.take(j + 1)[j as int] == s);
                        }
                        if t == s {
                            if subs@.take(j as int).contains(s) {
                                assert(top@[t].sups@ == prior);
                            } else {
                                assert(top@[t].sups@ =~= prior.push(i));
                                assert(prior.push(i) =~= incident_upto(lists, t as usize, i as int) + seq![i as usize]);
                            }
                        } else {
                            assert(top@[t] == top_before[t]);
                        }
                        if subs@.take(j as int).contains(t as usize) {
                            assert(subs@.take(j + 1).contains(t as usize));
                        }
                        if t != s {
                            if subs@.take(j + 1).contains(t as usize) {
                                let k = choose|k: int| 0 <= k < j + 1 && #[trigger] subs@.take(j + 1)[k] == t as usize;
                                if k == j {
                                    assert(subs@.take(j + 1)[k] == s);
                                }
                                assert(subs@.take(j as int)[k] == t as usize);
                            }
                        }
                    }
                }
                j += 1;
            }
            proof {
                assert(subs@.take(subs@.len() as int) == subs@);
                assert forall|t: int| 0 <= t < top@.len() implies (#[trigger] top@[t]).sups@ == top0[t].sups@ + incident_upto(lists, t as usize, i + 1) by {
                    assert(top0[t].sups@ + incident_upto(lists, t as usize, i + 1) == incident_upto(lists, t as usize, i + 1));
                }
            }
            i += 1;
        }
        let mut fresh: ElementList = Vec::new();
        let mut k: usize = 0;
        while k < elements.len()
            invariant
                els == elements@,
                lists == subs_lists(els),
                0 <= k <= els.len(),
                fresh@.len() == k,
                forall|i: int| 0 <= i < k ==> (#[trigger] fresh@[i]).subs@ == els[i].subs@ && fresh@[i].sups@.len() == 0,
            decreases els.len() - k,
        {
            let subs = elements[k].subs.clone();
            assert(subs@ =~= els[k as int].subs@);
            fresh.push(Element { subs, sups: Vec::new() });
            k += 1;
        }
        let ghost mid = self.ranks@;
        self.ranks.push(top);
        self.ranks.push(fresh);
        proof {
            assert forall|t: int| 0 <= t < top0.len() implies (#[trigger] top@[t]).sups@ == incident(lists, t as usize) by {
                assert(top0[t].sups@ + incident_upto(lists, t as usize, els.len() as int) =~= incident_upto(lists, t as usize, els.len() as int));
            }
            assert(self.ranks@[self.ranks@.len() - 2] == top);
            assert forall|r: int| -1 <= r < old(self).rank() + 1 implies #[trigger] self.count(r) == old(self).count(r) by {
                if r < old(self).rank() {
                    assert(self.ranks@[r + 1] == old(self).ranks@[r + 1]);
                }
            }
            assert forall|r: int, i: int| -1 <= r < old(self).rank() && 0 <= i < old(self).count(r) implies #[trigger] self.same_element(old(self), r, i) by {
                assert(self.ranks@[r + 1] == old(self).ranks@[r + 1]);
            }
        }
    }
}

impl Abstract {
    /// `self` is the dual of `a`: the ranks in reverse order, with the
    /// subelements and superelements of every element exchanged.
    pub open spec fn dual_of(&self, a: &Abstract) -> bool {
        let t = a.rank();
        &&& self.ranks@.len() == a.ranks@.len()
        &&& forall|r: int| -1 <= r <= t ==> #[trigger] self.count(r) == a.count(t - 1 - r)
        &&& forall|r: int, i: int|
            -1 <= r <= t && 0 <= i < self.count(r) ==> #[trigger] self.subs(r, i) == a.sups(t - 1 - r, i)
                && self.sups(r, i) == a.subs(t - 1 - r, i)
    }

    /// The dual structure: ranks reversed, subelements and superelements
    /// exchanged.
    pub fn dual(&self) -> (r: Abstract)
        ensures
            r.dual_of(self),
    {
        let n = self.ranks.len();
        let mut ranks: Vec<ElementList> = Vec::new();
        let mut k: usize = 0;
        while k < n
            invariant
                n == self.ranks@.len(),
                k <= n,
                ranks@.len() == k,
                forall|a: int| 0 <= a < k ==> (#[trigger] ranks@[a])@.len() == self.ranks@[n - 1 - a]@.len(),
                forall|a: int, i: int|
                    0 <= a < k && 0 <= i < ranks@[a]@.len() ==> (#[trigger] ranks@[a]@[i]).subs@
                        == self.ranks@[n - 1 - a]@[i].sups@ && ranks@[a]@[i].sups@ == self.ranks@[n - 1 - a]@[i].subs@,
            decreases n - k,
        {
            let src = &self.ranks[n - 1 - k];
            let mut list: ElementList = Vec::new();
            let mut i: usize = 0;
            while i < src.len()
                invariant
                    i <= src@.len(),
                    list@.len() == i,
                    forall|j: int|
                        0 <= j < i ==> (#[trigger] list@[j]).subs@ == src@[j].sups@ && list@[j].sups@
                            == src@[j].subs@,
                decreases src@.len() - i,
            {
                let subs = src[i].sups.clone();
                let sups = src[i].subs.clone();
                assert(subs@ =~= src@[i as int].sups@);
                assert(sups@ =~= src@[i as int].subs@);
                list.push(Element { subs, sups });
                i += 1;
            }
            ranks.push(list);
            k += 1;
        }
        let r = Abstract { ranks };
        proof {
            assert forall|q: int| -1 <= q <= self.rank() implies #[trigger] r.count(q) == self.count(self.rank() - 1 - q) by {
                assert(r.ranks@[q + 1]@.len() == self.ranks@[n - 1 - (q + 1)]@.len());
            }
        }
        r
    }
}

/// Builds an incidence structure from the bottom up: the minimal element,
/// then each rank given by the subelements of its elements, then the maximal
/// element.
pub struct AbstractBuilder(Abstract);

impl AbstractBuilder {
    /// The structure built so far.
    pub closed spec fn structure(&self) -> Abstract {
        self.0
    }

    /// A builder with no ranks yet.
    pub fn new() -> (r: Self)
        ensures
            r.structure().ranks@.len() == 0,
    {
        AbstractBuilder(Abstract { ranks: Vec::new() })
    }

    /// Adds a rank whose elements have the given subelements, which must be
    /// elements of the current top rank.
    pub fn push(&mut self, elements: ElementList)
        requires
            old(self).structure().top_open(),
            forall|i: int, k: int|
                0 <= i < elements@.len() && 0 <= k < elements@[i].subs@.len() ==> #[trigger] elements@[i].subs@[k]
                    < old(self).structure().count(old(self).structure().rank()),
        ensures
            final(self).structure().pushed(&old(self).structure(), subs_lists(elements@)),
            final(self).structure().top_open(),
    {
        self.0.push_subs(elements);
    }

    /// Adds a rank with a single element that has no subelements: the
    /// minimal element, when the builder is empty.
    pub fn push_single(&mut self)
        ensures
            final(self).structure().ranks@.len() == old(self).structure().ranks@.len() + 1,
            forall|k: int|
                0 <= k < old(self).structure().ranks@.len() ==> #[trigger] final(self).structure().ranks@[k]
                    == old(self).structure().ranks@[k],
            final(self).structure().top_open(),
            final(self).structure().count(final(self).structure().rank()) == 1,
            final(self).structure().subs(final(self).structure().rank(), 0).len() == 0,
    {
        let mut list: ElementList = Vec::new();
        list.push(Element { subs: Vec::new(), sups: Vec::new() });
        self.0.ranks.push(list);
    }

    /// Adds `vertex_count` vertices, each with the single element of the
    /// current top rank as its subelement.
    pub fn push_vertices(&mut self, vertex_count: usize)
        requires
            old(self).structure().top_open(),
            old(self).structure().count(old(self).structure().rank()) >= 1,
        ensures
            final(self).structure().pushed(
                &old(self).structure(),
                Seq::new(vertex_count as nat, |i: int| seq![0usize]),
            ),
            final(self).structure().top_open(),
    {
        let mut list: ElementList = Vec::new();
        let mut i: usize = 0;
        while i < vertex_count
            invariant
                i <= vertex_count,
                list@.len() == i,
                forall|j: int| 0 <= j < i ==> (#[trigger] list@[j]).subs@ == seq![0usize],
            decreases vertex_count - i,
        {
            let mut subs: Vec<usize> = Vec::new();
            subs.push(0);
            list.push(Element { subs, sups: Vec::new() });
            i += 1;
        }
        assert(subs_lists(list@) =~= Seq::new(vertex_count as nat, |i: int| seq![0usize]));
        self.0.push_subs(list);
    }

    /// Adds the maximal element, with every element of the current top rank
    /// as a subelement.
    pub fn push_max(&mut self)
        requires
            old(self).structure().top_open(),
        ensures
            final(self).structure().pushed(
                &old(self).structure(),
                seq![Seq::new(old(self).structure().count(old(self).structure().rank()) as nat, |i: int| i as usize)],
            ),
            final(self).structure().top_open(),
    {
        let n = self.0.ranks[self.0.ranks.len() - 1].len();
        let mut subs: Vec<usize> = Vec::new();
        let mut i: usize = 0;
        while i < n
            invariant
                i <= n,
                subs@ == Seq::new(i as nat, |j: int| j as usize),
            decreases n - i,
        {
            subs.push(i);
            i += 1;
            assert(subs@ =~= Seq::new(i as nat, |j: int| j as usize));
        }
        let mut list: ElementList = Vec::new();
        list.push(Element { subs, sups: Vec::new() });
        assert(subs_lists(list@) =~= seq![Seq::new(n as nat, |i: int| i as usize)]);
        self.0.push_subs(list);
    }

    /// The structure built.
    pub fn build(self) -> (r: Abstract)
        ensures
            r == self.structure(),
    {
        self.0
    }
}

/// The superelement lists of `elements`.
pub open spec fn sups_lists(elements: Seq<Element>) -> Seq<Seq<usize>> {
    elements.map_values(|e: Element| e.sups@)
}

/// Builds an incidence structure from the top down: the maximal element,
/// then each rank given by the superelements of its elements. What it holds
/// while building is the dual of the structure built.
pub struct AbstractBuilderRev(Abstract);

impl AbstractBuilderRev {
    /// The dual of the structure built so far.
    pub closed spec fn structure(&self) -> Abstract {
        self.0
    }

    /// A builder with no ranks yet.
    pub fn new() -> (r: Self)
        ensures
            r.structure().ranks@.len() == 0,
    {
        AbstractBuilderRev(Abstract { ranks: Vec::new() })
    }

    /// Adds a rank below the others, whose elements have the given
    /// superelements, which must be elements of the rank added last.
    pub fn push(&mut self, elements: ElementList)
        requires
            old(self).structure().top_open(),
            forall|i: int, k: int|
                0 <= i < elements@.len() && 0 <= k < elements@[i].sups@.len() ==> #[trigger] elements@[i].sups@[k]
                    < old(self).structure().count(old(self).structure().rank()),
        ensures
            final(self).structure().pushed(&old(self).structure(), sups_lists(elements@)),
            final(self).structure().top_open(),
    {
        let mut list: ElementList = Vec::new();
        let mut i: usize = 0;
        while i < elements.len()
            invariant
                i <= elements@.len(),
                list@.len() == i,
                forall|j: int| 0 <= j < i ==> (#[trigger] list@[j]).subs@ == elements@[j].sups@,
            decreases elements@.len() - i,
        {
            let subs = elements[i].sups.clone();
            assert(subs@ =~= elements@[i as int].sups@);
            list.push(Element { subs, sups: Vec::new() });
            i += 1;
        }
        assert(subs_lists(list@) =~= sups_lists(elements@));
        self.0.push_subs(list);
    }

    /// Adds the maximal element, when the builder is empty.
    pub fn push_max(&mut self)
        ensures
            final(self).structure().ranks@.len() == old(self).structure().ranks@.len() + 1,
            forall|k: int|
                0 <= k < old(self).structure().ranks@.len() ==> #[trigger] final(self).structure().ranks@[k]
                    == old(self).structure().ranks@[k],
            final(self).structure().top_open(),
            final(self).structure().count(final(self).structure().rank()) == 1,
            final(self).structure().subs(final(self).structure().rank(), 0).len() == 0,
    {
        let mut list: ElementList = Vec::new();
        list.push(Element { subs: Vec::new(), sups: Vec::new() });
        self.0.ranks.push(list);
    }

    /// The structure built: the dual of what the builder holds.
    pub fn build(self) -> (r: Abstract)
        ensures
            r.dual_of(&self.structure()),
    {
        self.0.dual()
    }
}

} // verus!
