//! The add-wins join core with elements grouped by origin: the operations a
//! replica runs on its own tagged elements and causal context.
use vstd::prelude::*;

use crate::dotcontext::{cc_max, compaction_of, DotContext};
use crate::tagged::{
    contains_tagged, drop_elem, elem_views, join_payload, join_tagged, not_from, payload_seq, push_new,
    values_of, without, without_origin, TaggedV,
};
use crate::keyed::{lemma_to_set_empty, lemma_to_set_push};
use crate::types::{Dot, DotV, Element, IdV, NodeId, Payload};

verus! {

/// The payloads of origin `o` in a tagged set.
pub open spec fn bucket<V>(pl: Set<TaggedV<V>>, o: IdV) -> Set<(i64, V)> {
    Set::new(|p: (i64, V)| pl.contains((o, p.0, p.1)))
}

/// A replica's set state: tagged elements by origin and the causal context.
#[derive(Clone, Debug)]
pub struct Kernel<E> {
    pub id: NodeId,
    /// Tagged elements with their origin.
    pub ti: Vec<(NodeId, Payload<E>)>,
    pub cc: DotContext,
}

impl<E: Element> Kernel<E> {
    pub open spec fn pl(&self) -> Set<TaggedV<E::V>> {
        payload_seq(self.ti@).to_set()
    }

    pub open spec fn wf(&self) -> bool {
        self.cc.wf()
    }

    pub fn new(id: &NodeId) -> (r: Kernel<E>)
        ensures
            r.wf(),
            r.id@ == id@,
            r.pl() == Set::<TaggedV<E::V>>::empty(),
            r.cc.cc_view() == Map::<IdV, i64>::empty(),
            r.cc.dc_view() == Set::<DotV>::empty(),
    {
        let r = Kernel { id: id.copy_id(), ti: Vec::new(), cc: DotContext::new() };
        proof {
            lemma_to_set_empty(payload_seq(r.ti@));
        }
        r
    }

    /// Copies of the payloads that originated at `id`.
    pub fn get_ti(&self, id: &NodeId) -> (r: Vec<Payload<E>>)
        ensures
            crate::tagged::elems_view(r@) == bucket(self.pl(), id@),
    {
        let ghost ps = payload_seq(self.ti@);
        let mut out: Vec<Payload<E>> = Vec::new();
        let mut i: usize = 0;
        while i < self.ti.len()
            invariant
                i <= self.ti@.len(),
                ps == payload_seq(self.ti@),
                forall|p: (i64, E::V)| #[trigger] crate::tagged::elems_view(out@).contains(p) <==> exists|j: int| 0 <= j < i && ps[j] == (id@, p.0, p.1),
            decreases self.ti@.len() - i,
        {
            let ghost ev = crate::tagged::payload_views(out@);
            if self.ti[i].0.same_id(id) {
                let c = self.ti[i].1.copy_payload();
                proof {
                    assert(crate::tagged::payload_views(out@.push(c)) =~= ev.push(c@));
                    lemma_to_set_push(ev, c@);
                    assert(ps[i as int] == (id@, c@.0, c@.1));
                    assert(crate::tagged::elems_view(out@.push(c)) == crate::tagged::elems_view(out@).insert(c@));
                    assert forall|p: (i64, E::V)| #[trigger] crate::tagged::elems_view(out@.push(c)).contains(p) <==> exists|j: int| 0 <= j < i + 1 && ps[j] == (id@, p.0, p.1) by {
                        if p == c@ {
                            assert(ps[i as int] == (id@, p.0, p.1));
                        }
                        if exists|j: int| 0 <= j < i + 1 && ps[j] == (id@, p.0, p.1) {
                            let j = choose|j: int| 0 <= j < i + 1 && ps[j] == (id@, p.0, p.1);
                            if j == i {
                                assert(p == c@);
                            }
                        }
                    }
                }
                out.push(c);
            } else {
                proof {
                    assert forall|p: (i64, E::V)| #[trigger] crate::tagged::elems_view(out@).contains(p) <==> exists|j: int| 0 <= j < i + 1 && ps[j] == (id@, p.0, p.1) by {
                        if exists|j: int| 0 <= j < i + 1 && ps[j] == (id@, p.0, p.1) {
                            let j = choose|j: int| 0 <= j < i + 1 && ps[j] == (id@, p.0, p.1);
                            if j == i {
                                assert(ps[i as int].0 == id@);
                            }
                        }
                    }
                }
            }
            i = i + 1;
        }
        proof {
            assert forall|p: (i64, E::V)| #[trigger] crate::tagged::elems_view(out@).contains(p) == bucket(self.pl(), id@).contains(p) by {
                if self.pl().contains((id@, p.0, p.1)) {
                    let j = choose|j: int| 0 <= j < ps.len() && ps[j] == (id@, p.0, p.1);
                }
                if exists|j: int| 0 <= j < i && ps[j] == (id@, p.0, p.1) {
                    let j = choose|j: int| 0 <= j < i && ps[j] == (id@, p.0, p.1);
                    assert(ps.contains(ps[j]));
                }
            }
            assert(crate::tagged::elems_view(out@) =~= bucket(self.pl(), id@));
        }
        out
    }

    /// Sets the counter of `dot.id` to `dot.n`.
    pub fn add_cc(&mut self, dot: &Dot)
        requires
            old(self).wf(),
            dot.n >= 0,
        ensures
            final(self).wf(),
            final(self).cc.cc_view() == old(self).cc.cc_view().insert(dot.id@, dot.n),
            final(self).cc.dc_view() == old(self).cc.dc_view(),
            final(self).pl() == old(self).pl(),
            final(self).id == old(self).id,
    {
        self.cc.insert_cc(dot);
    }

    /// Records `dot` in the cloud, without compacting, and adds `elem` under it.
    pub fn insert_dot_elem(&mut self, dot: Dot, elem: &E)
        requires
            old(self).wf(),
            dot.n >= 1,
        ensures
            final(self).wf(),
            final(self).cc.cc_view() == old(self).cc.cc_view(),
            final(self).cc.dc_view() == old(self).cc.dc_view().insert(dot@),
            final(self).pl() == old(self).pl().insert((dot.id@, dot.n, elem@)),
            final(self).id == old(self).id,
    {
        self.cc.insert_dot(&dot, Some(false));
        let entry = (dot.id.copy_id(), Payload { n: dot.n, elem: elem.duplicate() });
        proof {
            let tv = (dot.id@, dot.n, elem@);
            assert(payload_seq(self.ti@.push(entry)) =~= payload_seq(self.ti@).push(tv));
            lemma_to_set_push(payload_seq(self.ti@), tv);
        }
        self.ti.push(entry);
    }

    /// Forgets everything about `id`: its payloads and its history.
    pub fn clean_id(&mut self, id: &NodeId)
        requires
            old(self).wf(),
        ensures
            final(self).wf(),
            final(self).pl() == old(self).pl().filter(not_from(id@)),
            final(self).cc.cc_view() == old(self).cc.cc_view().remove(id@),
            final(self).cc.dc_view() == old(self).cc.dc_view().filter(|d: DotV| d.0 != id@),
            final(self).id == old(self).id,
    {
        self.ti = without_origin(&self.ti, id);
        self.cc.clean_id(id);
    }

    /// Whether `tag` is held under origin `id`.
    pub fn has_element(&self, id: &NodeId, tag: &Payload<E>) -> (r: bool)
        ensures
            r == self.pl().contains((id@, tag.n, tag.elem@)),
    {
        contains_tagged(&self.ti, id, tag)
    }

    /// The elements, each once.
    pub fn elements(&self) -> (r: Vec<E>)
        ensures
            elem_views(r@).to_set() == values_of(self.pl()),
            elem_views(r@).no_duplicates(),
    {
        let mut r: Vec<E> = Vec::new();
        let ghost ps = payload_seq(self.ti@);
        let mut i: usize = 0;
        while i < self.ti.len()
            invariant
                i <= self.ti@.len(),
                ps == payload_seq(self.ti@),
                elem_views(r@).no_duplicates(),
                forall|v: E::V| #[trigger] elem_views(r@).contains(v) <==> exists|j: int| 0 <= j < i && ps[j].2 == v,
            decreases self.ti@.len() - i,
        {
            push_new(&mut r, &self.ti[i].1.elem);
            proof {
                assert forall|v: E::V| #[trigger] elem_views(r@).contains(v) <==> exists|j: int| 0 <= j < i + 1 && ps[j].2 == v by {
                    if v == ps[i as int].2 {
                        assert(0 <= i < i + 1 && ps[i as int].2 == v);
                    }
                }
            }
            i = i + 1;
        }
        proof {
            let rv = elem_views(r@);
            assert forall|v: E::V| #[trigger] rv.to_set().contains(v) == values_of(self.pl()).contains(v) by {
                if exists|j: int| 0 <= j < i && ps[j].2 == v {
                    let j = choose|j: int| 0 <= j < i && ps[j].2 == v;
                    assert(ps.contains(ps[j]));
                    assert(self.pl().contains((ps[j].0, ps[j].1, v)));
                }
                if values_of(self.pl()).contains(v) {
                    let (o, n) = choose|o: IdV, n: i64| self.pl().contains((o, n, v));
                    let j = choose|j: int| 0 <= j < ps.len() && ps[j] == (o, n, v);
                    assert(ps[j].2 == v);
                }
            }
            assert(rv.to_set() =~= values_of(self.pl()));
        }
        r
    }

    /// Adds `elem` under a fresh dot of this replica and returns the tagged payload.
    pub fn add(&mut self, elem: E) -> (r: Payload<E>)
        requires
            old(self).wf(),
            old(self).cc.counter(old(self).id@) < i64::MAX,
        ensures
            final(self).wf(),
            r.n == old(self).cc.counter(old(self).id@) + 1,
            r.elem@ == elem@,
            final(self).pl() == old(self).pl().insert((old(self).id@, r.n, elem@)),
            final(self).cc.cc_view() == old(self).cc.cc_view().insert(old(self).id@, r.n),
            final(self).cc.dc_view() == old(self).cc.dc_view(),
            final(self).id == old(self).id,
    {
        let dot = self.cc.makedot(&self.id);
        let p = Payload { n: dot.n, elem };
        let entry = (self.id.copy_id(), p.copy_payload());
        proof {
            let tv = (self.id@, p.n, p.elem@);
            assert(payload_seq(self.ti@.push(entry)) =~= payload_seq(self.ti@).push(tv));
            lemma_to_set_push(payload_seq(self.ti@), tv);
        }
        self.ti.push(entry);
        p
    }

    /// Removes every occurrence of `elem`, from every origin.
    pub fn rm(&mut self, elem: &E)
        requires
            old(self).wf(),
        ensures
            final(self).wf(),
            final(self).pl() == without(old(self).pl(), elem@),
            final(self).cc == old(self).cc,
            final(self).id == old(self).id,
    {
        self.ti = drop_elem(&self.ti, elem);
    }

    /// Joins `other`: keeps what `other` also has or has not seen, takes what
    /// this replica has not seen, and joins the causal contexts.
    pub fn join(&mut self, other: &Self)
        requires
            old(self).wf(),
            other.wf(),
        ensures
            final(self).wf(),
            final(self).pl() == join_tagged(
                old(self).pl(),
                old(self).cc.cc_view(),
                old(self).cc.dc_view(),
                other.pl(),
                other.cc.cc_view(),
                other.cc.dc_view(),
            ),
            compaction_of(
                cc_max(old(self).cc.cc_view(), other.cc.cc_view()),
                old(self).cc.dc_view() + other.cc.dc_view(),
                final(self).cc.cc_view(),
                final(self).cc.dc_view(),
            ),
            final(self).id == old(self).id,
    {
        join_payload(&mut self.ti, &mut self.cc, &other.ti, &other.cc);
    }

    /// Whether anything about `id` was ever received.
    pub fn has_seen(&self, id: &NodeId) -> (r: bool)
        requires
            self.wf(),
        ensures
            r == (self.cc.cc_view().contains_key(id@) || exists|d: DotV| #[trigger] self.cc.dc_view().contains(d) && d.0 == id@),
    {
        self.cc.id_in(id)
    }
}

} // verus!
