//! The flat, single-tier add-wins observed-remove set: every replica keeps
//! all tagged elements with their origin. It is the reference semantics that
//! the tiered structure reproduces.
use vstd::prelude::*;

use crate::dotcontext::DotContext;
use crate::tagged::{
    consistent_with, drop_elem, elem_views, join_payload, joined, payload_seq, push_new, values_of, without, TaggedV,
};
use crate::keyed::{lemma_to_set_empty, lemma_to_set_push};
use crate::types::{DotV, Element, IdV, NodeId, Payload};

verus! {

/// One replica of the flat set.
#[derive(Clone, Debug)]
pub struct AworsetOpt<E> {
    pub id: NodeId,
    /// Tagged elements with their origin.
    pub set: Vec<(NodeId, Payload<E>)>,
    pub cc: DotContext,
}

impl<E: Element> AworsetOpt<E> {
    pub open spec fn pl(&self) -> Set<TaggedV<E::V>> {
        payload_seq(self.set@).to_set()
    }

    pub open spec fn wf(&self) -> bool {
        self.cc.wf()
    }

    /// The effect of `join`: `b` is what it makes of `a` with peer `other`.
    pub open spec fn join_post(a: &Self, other: &Self, b: &Self) -> bool {
        &&& joined(a.pl(), a.cc, other.pl(), other.cc, b.pl(), b.cc)
        &&& b.id == a.id
    }

    /// Every element is positively tagged and its dot is known to the context.
    pub open spec fn consistent(&self) -> bool {
        consistent_with(self.pl(), self.cc)
    }

    pub fn new(id: NodeId) -> (r: AworsetOpt<E>)
        ensures
            r.wf(),
            r.consistent(),
            r.id@ == id@,
            r.pl() == Set::<TaggedV<E::V>>::empty(),
            r.cc.cc_view() == Map::<IdV, i64>::empty(),
            r.cc.dc_view() == Set::<DotV>::empty(),
    {
        let r = AworsetOpt { id, set: Vec::new(), cc: DotContext::new() };
        proof {
            lemma_to_set_empty(payload_seq(r.set@));
        }
        r
    }

    /// The elements of the set, each once.
    pub fn elements(&self) -> (r: Vec<E>)
        requires
            self.wf(),
        ensures
            elem_views(r@).to_set() == values_of(self.pl()),
            elem_views(r@).no_duplicates(),
    {
        let mut r: Vec<E> = Vec::new();
        let ghost ps = payload_seq(self.set@);
        let mut i: usize = 0;
        while i < self.set.len()
            invariant
                i <= self.set@.len(),
                ps == payload_seq(self.set@),
                elem_views(r@).no_duplicates(),
                forall|v: E::V| #[trigger] elem_views(r@).contains(v) <==> exists|j: int| 0 <= j < i && ps[j].2 == v,
            decreases self.set@.len() - i,
        {
            push_new(&mut r, &self.set[i].1.elem);
            proof {
                assert forall|v: E::V| #[trigger] elem_views(r@).contains(v) <==> exists|j: int| 0 <= j < i + 1 && ps[j].2 == v by {
                    if v == ps[i as int].2 {
                        assert(0 <= i < i + 1 && ps[i as int].2 == v);
                    }
                }
            }
            i = i + 1;
        }
        proof {
            let rv = elem_views(r@);
            assert forall|v: E::V| #[trigger] rv.to_set().contains(v) == values_of(self.pl()).contains(v) by {
                if exists|j: int| 0 <= j < i && ps[j].2 == v {
                    let j = choose|j: int| 0 <= j < i && ps[j].2 == v;
                    assert(ps.contains(ps[j]));
                    assert(self.pl().contains((ps[j].0, ps[j].1, v)));
                }
                if values_of(self.pl()).contains(v) {
                    let (o, n) = choose|o: IdV, n: i64| self.pl().contains((o, n, v));
                    let j = choose|j: int| 0 <= j < ps.len() && ps[j] == (o, n, v);
                    assert(ps[j].2 == v);
                }
            }
            assert(rv.to_set() =~= values_of(self.pl()));
        }
        r
    }

    /// Adds `element` under a fresh dot of this replica.
    pub fn add(&mut self, element: E)
        requires
            old(self).wf(),
            old(self).cc.counter(old(self).id@) < i64::MAX,
        ensures
            final(self).wf(),
            final(self).pl() == old(self).pl().insert(
                (old(self).id@, (old(self).cc.counter(old(self).id@) + 1) as i64, element@),
            ),
            final(self).cc.cc_view() == old(self).cc.cc_view().insert(
                old(self).id@,
                (old(self).cc.counter(old(self).id@) + 1) as i64,
            ),
            final(self).cc.dc_view() == old(self).cc.dc_view(),
            final(self).id == old(self).id,
            old(self).consistent() ==> final(self).consistent(),
    {
        let dot = self.cc.makedot(&self.id);
        let entry = (self.id.copy_id(), Payload { n: dot.n, elem: element });
        proof {
            let tv = (self.id@, dot.n, element@);
            assert(payload_seq(self.set@.push(entry)) =~= payload_seq(self.set@).push(tv));
            lemma_to_set_push(payload_seq(self.set@), tv);
        }
        self.set.push(entry);
        proof {
            if old(self).consistent() {
                assert forall|t: TaggedV<E::V>| #[trigger] self.pl().contains(t) implies t.1 >= 1 && self.cc.knows_dot((t.0, t.1)) by {
                    if t != (self.id@, dot.n, element@) {
                        assert(old(self).pl().contains(t));
                        assert(old(self).cc.knows_dot((t.0, t.1)));
                        crate::dotcontext::lemma_counter_nonneg(&old(self).cc, self.id@);
                    }
                }
            }
        }
    }

    /// Removes every occurrence of `element`.
    pub fn rm(&mut self, element: E)
        requires
            old(self).wf(),
        ensures
            final(self).wf(),
            final(self).pl() == without(old(self).pl(), element@),
            final(self).cc == old(self).cc,
            final(self).id == old(self).id,
            old(self).consistent() ==> final(self).consistent(),
    {
        self.set = drop_elem(&self.set, &element);
    }

    /// Joins `other`: keeps what `other` also has or has not seen, takes what
    /// this replica has not seen, and joins the causal contexts.
    pub fn join(&mut self, other: &Self)
        requires
            old(self).wf(),
            other.wf(),
        ensures
            final(self).wf(),
            Self::join_post(old(self), other, final(self)),
            old(self).consistent() && other.consistent() ==> final(self).consistent(),
    {
        join_payload(&mut self.set, &mut self.cc, &other.set, &other.cc);
        proof {
            if old(self).consistent() && other.consistent() {
                crate::laws::lemma_join_consistent(old(self).pl(), old(self).cc, other.pl(), other.cc, self.pl(), self.cc);
            }
        }
    }
}

} // verus!
