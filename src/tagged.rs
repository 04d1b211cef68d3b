//! Tagged elements: values carried with the origin and counter of the dot
//! that created them, and the flat add-wins join over them.
use vstd::prelude::*;

use crate::dotcontext::{cc_max, compaction_of, knows, DotContext};
use crate::keyed::{lemma_filter_insert, lemma_to_set_empty, lemma_to_set_prefix, lemma_to_set_push};
use crate::types::{Dot, DotV, Element, IdV, NodeId, Payload};

verus! {

/// Abstract tagged element: origin, counter, element.
pub type TaggedV<V> = (IdV, i64, V);

pub open spec fn payload_seq<E: Element>(s: Seq<(NodeId, Payload<E>)>) -> Seq<TaggedV<E::V>> {
    s.map_values(|t: (NodeId, Payload<E>)| (t.0@, t.1.n, t.1.elem@))
}

pub open spec fn elem_views<E: Element>(s: Seq<E>) -> Seq<E::V> {
    s.map_values(|x: E| x@)
}

pub open spec fn payload_views<E: Element>(s: Seq<Payload<E>>) -> Seq<(i64, E::V)> {
    s.map_values(|p: Payload<E>| p@)
}

pub open spec fn elems_view<E: Element>(s: Seq<Payload<E>>) -> Set<(i64, E::V)> {
    payload_views(s).to_set()
}

/// The tagged elements of `pl` other than `v`.
pub open spec fn without<V>(pl: Set<TaggedV<V>>, v: V) -> Set<TaggedV<V>> {
    pl.filter(|t: TaggedV<V>| t.2 != v)
}

/// The elements of a tagged set.
pub open spec fn values_of<V>(pl: Set<TaggedV<V>>) -> Set<V> {
    Set::new(|v: V| exists|o: IdV, n: i64| pl.contains((o, n, v)))
}

/// Flat add-wins join of tagged sets: keep what the other side also has or
/// has not seen, and take what the other side has that this side has not seen.
pub open spec fn join_tagged<V>(
    pl: Set<TaggedV<V>>,
    scc: Map<IdV, i64>,
    sdc: Set<DotV>,
    opl: Set<TaggedV<V>>,
    occ: Map<IdV, i64>,
    odc: Set<DotV>,
) -> Set<TaggedV<V>> {
    pl.filter(survives(opl, occ, odc)) + opl.filter(unseen(scc, sdc))
}

/// A tagged element that the other side also holds or has not seen.
pub open spec fn survives<V>(opl: Set<TaggedV<V>>, occ: Map<IdV, i64>, odc: Set<DotV>) -> spec_fn(TaggedV<V>) -> bool {
    |t: TaggedV<V>| opl.contains(t) || !knows(occ, odc, (t.0, t.1))
}

/// A tagged element whose dot the context `(cc, dc)` has not seen.
pub open spec fn unseen<V>(cc: Map<IdV, i64>, dc: Set<DotV>) -> spec_fn(TaggedV<V>) -> bool {
    |t: TaggedV<V>| !knows(cc, dc, (t.0, t.1))
}

/// A tagged element from an origin other than `o`.
pub open spec fn not_from<V>(o: IdV) -> spec_fn(TaggedV<V>) -> bool {
    |t: TaggedV<V>| t.0 != o
}

/// Flat add-wins join of the tagged entries `pl` and context `cc` with a
/// peer's entries `opl` and context `occ`.
pub fn join_payload<E: Element>(
    pl: &mut Vec<(NodeId, Payload<E>)>,
    cc: &mut DotContext,
    opl: &Vec<(NodeId, Payload<E>)>,
    occ: &DotContext,
)
    requires
        old(cc).wf(),
        occ.wf(),
    ensures
        final(cc).wf(),
        payload_seq(final(pl)@).to_set() == join_tagged(
            payload_seq(old(pl)@).to_set(),
            old(cc).cc_view(),
            old(cc).dc_view(),
            payload_seq(opl@).to_set(),
            occ.cc_view(),
            occ.dc_view(),
        ),
        compaction_of(
            cc_max(old(cc).cc_view(), occ.cc_view()),
            old(cc).dc_view() + occ.dc_view(),
            final(cc).cc_view(),
            final(cc).dc_view(),
        ),
        forall|d: DotV| d.1 >= 1 ==> (#[trigger] final(cc).knows_dot(d) == (old(cc).knows_dot(d) || occ.knows_dot(d))),
{
    let ghost os = payload_seq(opl@);
    let ghost oset = os.to_set();
    let ghost ss = payload_seq(pl@);
    let ghost keep1 = survives(oset, occ.cc_view(), occ.dc_view());
    let ghost keep2 = unseen::<E::V>(cc.cc_view(), cc.dc_view());
    let mut kept: Vec<(NodeId, Payload<E>)> = Vec::new();
    let mut i: usize = 0;
    proof {
        lemma_to_set_empty(payload_seq(kept@));
        lemma_to_set_empty(ss.subrange(0, 0));
        assert(Set::<TaggedV<E::V>>::empty().filter(keep1) =~= Set::<TaggedV<E::V>>::empty());
    }
    while i < pl.len()
        invariant
            i <= pl@.len(),
            cc.wf(),
            occ.wf(),
            ss == payload_seq(pl@),
            os == payload_seq(opl@),
            oset == os.to_set(),
            keep1 == survives(oset, occ.cc_view(), occ.dc_view()),
            payload_seq(kept@).to_set() == ss.subrange(0, i as int).to_set().filter(keep1),
        decreases pl@.len() - i,
    {
        proof {
            lemma_to_set_prefix(ss, i as int);
            lemma_filter_insert(ss.subrange(0, i as int).to_set(), ss[i as int], keep1);
        }
        let e = &pl[i];
        let keep = contains_tagged(opl, &e.0, &e.1) || !occ.dot_in(&Dot { id: e.0.copy_id(), n: e.1.n });
        if keep {
            let c = (e.0.copy_id(), e.1.copy_payload());
            proof {
                assert(payload_seq(kept@.push(c)) =~= payload_seq(kept@).push(ss[i as int]));
                lemma_to_set_push(payload_seq(kept@), ss[i as int]);
            }
            kept.push(c);
        }
        i = i + 1;
    }
    proof {
        assert(ss.subrange(0, ss.len() as int) =~= ss);
    }
    let mut j: usize = 0;
    proof {
        lemma_to_set_empty(os.subrange(0, 0));
        assert(ss.to_set().filter(keep1) + Set::<TaggedV<E::V>>::empty().filter(keep2) =~= ss.to_set().filter(keep1));
    }
    while j < opl.len()
        invariant
            j <= opl@.len(),
            cc.wf(),
            occ.wf(),
            *pl == *old(pl),
            *cc == *old(cc),
            ss == payload_seq(pl@),
            os == payload_seq(opl@),
            oset == os.to_set(),
            keep1 == survives(oset, occ.cc_view(), occ.dc_view()),
            keep2 == unseen::<E::V>(cc.cc_view(), cc.dc_view()),
            payload_seq(kept@).to_set() == ss.to_set().filter(keep1) + os.subrange(0, j as int).to_set().filter(keep2),
        decreases opl@.len() - j,
    {
        proof {
            lemma_to_set_prefix(os, j as int);
            lemma_filter_insert(os.subrange(0, j as int).to_set(), os[j as int], keep2);
        }
        let e = &opl[j];
        if !cc.dot_in(&Dot { id: e.0.copy_id(), n: e.1.n }) {
            let c = (e.0.copy_id(), e.1.copy_payload());
            proof {
                assert(payload_seq(kept@.push(c)) =~= payload_seq(kept@).push(os[j as int]));
                lemma_to_set_push(payload_seq(kept@), os[j as int]);
                assert(payload_seq(kept@.push(c)).to_set() =~= ss.to_set().filter(keep1) + os.subrange(0, j as int + 1).to_set().filter(keep2));
            }
            kept.push(c);
        }
        j = j + 1;
    }
    proof {
        assert(os.subrange(0, os.len() as int) =~= os);
    }
    *pl = kept;
    cc.join(occ);
}

/// Copies of the entries of `v` that do not hold `elem`.
pub fn drop_elem<E: Element>(v: &Vec<(NodeId, Payload<E>)>, elem: &E) -> (r: Vec<(NodeId, Payload<E>)>)
    ensures
        payload_seq(r@).to_set() == without(payload_seq(v@).to_set(), elem@),
{
    let ghost s0 = payload_seq(v@);
    let mut kept: Vec<(NodeId, Payload<E>)> = Vec::new();
    let mut i: usize = 0;
    proof {
        lemma_to_set_empty(payload_seq(kept@));
        lemma_to_set_empty(s0.subrange(0, 0));
        assert(without(Set::<TaggedV<E::V>>::empty(), elem@) =~= Set::<TaggedV<E::V>>::empty());
    }
    while i < v.len()
        invariant
            i <= v@.len(),
            s0 == payload_seq(v@),
            payload_seq(kept@).to_set() == without(s0.subrange(0, i as int).to_set(), elem@),
        decreases v@.len() - i,
    {
        proof {
            lemma_to_set_prefix(s0, i as int);
        }
        let ghost before = s0.subrange(0, i as int).to_set();
        if !v[i].1.elem.same(elem) {
            let entry = (v[i].0.copy_id(), v[i].1.copy_payload());
            proof {
                assert(payload_seq(kept@.push(entry)) =~= payload_seq(kept@).push(s0[i as int]));
                lemma_to_set_push(payload_seq(kept@), s0[i as int]);
                assert(without(before.insert(s0[i as int]), elem@) =~= without(before, elem@).insert(s0[i as int]));
            }
            kept.push(entry);
        } else {
            proof {
                assert(without(before.insert(s0[i as int]), elem@) =~= without(before, elem@));
            }
        }
        i = i + 1;
    }
    proof {
        assert(s0.subrange(0, s0.len() as int) =~= s0);
    }
    kept
}

/// Whether `v` holds `p` under origin `o`.
pub fn contains_tagged<E: Element>(v: &Vec<(NodeId, Payload<E>)>, o: &NodeId, p: &Payload<E>) -> (r: bool)
    ensures
        r == payload_seq(v@).to_set().contains((o@, p.n, p.elem@)),
{
    let ghost s0 = payload_seq(v@);
    let mut i: usize = 0;
    while i < v.len()
        invariant
            i <= v@.len(),
            s0 == payload_seq(v@),
            forall|j: int| 0 <= j < i ==> s0[j] != (o@, p.n, p.elem@),
        decreases v@.len() - i,
    {
        if v[i].1.n == p.n && v[i].0.same_id(o) && v[i].1.elem.same(&p.elem) {
            assert(s0[i as int] == (o@, p.n, p.elem@));
            assert(s0.contains(s0[i as int]));
            return true;
        }
        i = i + 1;
    }
    false
}

/// Copies of the entries of `v`.
pub fn copy_payloads<E: Element>(v: &Vec<(NodeId, Payload<E>)>) -> (r: Vec<(NodeId, Payload<E>)>)
    ensures
        payload_seq(r@) == payload_seq(v@),
{
    let mut out: Vec<(NodeId, Payload<E>)> = Vec::new();
    let mut i: usize = 0;
    while i < v.len()
        invariant
            i <= v@.len(),
            payload_seq(out@) == payload_seq(v@).subrange(0, i as int),
        decreases v@.len() - i,
    {
        let c = (v[i].0.copy_id(), v[i].1.copy_payload());
        proof {
            assert(payload_seq(out@.push(c)) =~= payload_seq(out@).push(payload_seq(v@)[i as int]));
            assert(payload_seq(v@).subrange(0, i as int + 1) =~= payload_seq(v@).subrange(0, i as int).push(payload_seq(v@)[i as int]));
            assert(payload_seq(out@.push(c)) =~= payload_seq(v@).subrange(0, i as int + 1));
        }
        out.push(c);
        i = i + 1;
    }
    proof {
        assert(payload_seq(v@).subrange(0, v@.len() as int) =~= payload_seq(v@));
    }
    out
}

/// Copies of the entries of `v` whose origin is not `id`.
pub fn without_origin<E: Element>(v: &Vec<(NodeId, Payload<E>)>, id: &NodeId) -> (r: Vec<(NodeId, Payload<E>)>)
    ensures
        payload_seq(r@).to_set() == payload_seq(v@).to_set().filter(not_from(id@)),
{
    let ghost s0 = payload_seq(v@);
    let ghost f = not_from::<E::V>(id@);
    let mut out: Vec<(NodeId, Payload<E>)> = Vec::new();
    let mut i: usize = 0;
    proof {
        lemma_to_set_empty(payload_seq(out@));
        lemma_to_set_empty(s0.subrange(0, 0));
        assert(Set::<TaggedV<E::V>>::empty().filter(f) =~= Set::<TaggedV<E::V>>::empty());
    }
    while i < v.len()
        invariant
            i <= v@.len(),
            s0 == payload_seq(v@),
            f == not_from::<E::V>(id@),
            payload_seq(out@).to_set() == s0.subrange(0, i as int).to_set().filter(f),
        decreases v@.len() - i,
    {
        proof {
            lemma_to_set_prefix(s0, i as int);
            lemma_filter_insert(s0.subrange(0, i as int).to_set(), s0[i as int], f);
        }
        if !v[i].0.same_id(id) {
            let c = (v[i].0.copy_id(), v[i].1.copy_payload());
            proof {
                assert(payload_seq(out@.push(c)) =~= payload_seq(out@).push(s0[i as int]));
                lemma_to_set_push(payload_seq(out@), s0[i as int]);
            }
            out.push(c);
        }
        i = i + 1;
    }
    proof {
        assert(s0.subrange(0, s0.len() as int) =~= s0);
    }
    out
}

/// Appends a copy of `e` unless an equal element is already there.
pub(crate) fn push_new<E: Element>(r: &mut Vec<E>, e: &E)
    requires
        elem_views(old(r)@).no_duplicates(),
    ensures
        elem_views(final(r)@).no_duplicates(),
        forall|v: E::V| #[trigger] elem_views(final(r)@).contains(v) <==> (elem_views(old(r)@).contains(v) || v == e@),
{
    let ghost rv = elem_views(r@);
    let mut i: usize = 0;
    let mut found = false;
    while i < r.len() && !found
        invariant
            i <= r@.len(),
            rv == elem_views(r@),
            found ==> rv.contains(e@),
            !found ==> forall|j: int| 0 <= j < i ==> rv[j] != e@,
        decreases r@.len() - i + if found { 0int } else { 1int },
    {
        if r[i].same(e) {
            assert(rv[i as int] == e@);
            found = true;
        } else {
            i = i + 1;
        }
    }
    if found {
        return;
    }
    let c = e.duplicate();
    r.push(c);
    proof {
        let nv = elem_views(r@);
        assert(nv =~= rv.push(e@));
        assert(!rv.contains(e@));
        assert forall|v: E::V| #[trigger] nv.contains(v) <==> (rv.contains(v) || v == e@) by {
            if v == e@ {
                assert(nv[rv.len() as int] == v);
            }
            if rv.contains(v) {
                let j = choose|j: int| 0 <= j < rv.len() && rv[j] == v;
                assert(nv[j] == v);
            }
            if nv.contains(v) {
                let j = choose|j: int| 0 <= j < nv.len() && nv[j] == v;
                if j < rv.len() {
                    assert(rv[j] == v);
                }
            }
        }
        assert forall|a: int, b: int| 0 <= a < nv.len() && 0 <= b < nv.len() && a != b implies nv[a] != nv[b] by {
            if a == rv.len() {
                assert(rv.contains(nv[b]));
            } else if b == rv.len() {
                assert(rv.contains(nv[a]));
            }
        }
    }
}

/// Every tagged element of `pl` is positively tagged and its dot is known to `c`.
pub open spec fn consistent_with<V>(pl: Set<TaggedV<V>>, c: DotContext) -> bool {
    forall|t: TaggedV<V>| #[trigger] pl.contains(t) ==> t.1 >= 1 && c.knows_dot((t.0, t.1))
}

/// `(pr, cr)` is the flat join of `(pa, ca)` with `(po, co)`.
pub open spec fn joined<V>(
    pa: Set<TaggedV<V>>,
    ca: DotContext,
    po: Set<TaggedV<V>>,
    co: DotContext,
    pr: Set<TaggedV<V>>,
    cr: DotContext,
) -> bool {
    &&& pr == join_tagged(pa, ca.cc_view(), ca.dc_view(), po, co.cc_view(), co.dc_view())
    &&& compaction_of(cc_max(ca.cc_view(), co.cc_view()), ca.dc_view() + co.dc_view(), cr.cc_view(), cr.dc_view())
}

} // verus!
