//! Laws of the flat add-wins join that every replica runs on its set state:
//! the reference set `AworsetOpt` and the set-state step of `Handoff::merge`.
use vstd::prelude::*;

use crate::aworset_opt::AworsetOpt;
use crate::dotcontext::{cc_max, knows, lemma_compact_unique, lemma_counter_nonneg, stuck, DotContext};
use crate::handoff::Handoff;
use crate::handoff::{fill_all, fill_step, FillV};
use crate::tagged::{consistent_with, join_tagged, joined, values_of, TaggedV};
use crate::types::{DotV, Element, IdV};

verus! {

/// Add wins: an element that replica `x` holds under a dot that replica `y`
/// has not seen (an add concurrent with `y`'s remove) is present on both
/// sides after joining in either order.
pub proof fn add_wins<E: Element>(
    x: AworsetOpt<E>,
    y: AworsetOpt<E>,
    xy: AworsetOpt<E>,
    yx: AworsetOpt<E>,
    t: TaggedV<E::V>,
)
    requires
        AworsetOpt::join_post(&x, &y, &xy),
        AworsetOpt::join_post(&y, &x, &yx),
        x.pl().contains(t),
        !y.cc.knows_dot((t.0, t.1)),
    ensures
        xy.pl().contains(t),
        yx.pl().contains(t),
        values_of(xy.pl()).contains(t.2),
        values_of(yx.pl()).contains(t.2),
{
    lemma_add_wins(x.pl(), x.cc, y.pl(), y.cc, xy.pl(), xy.cc, yx.pl(), yx.cc, t);
}

/// Joining the same peer twice in a row changes nothing the second time:
/// neither the elements nor the causal context.
pub proof fn join_idempotent<E: Element>(a: AworsetOpt<E>, o: AworsetOpt<E>, b: AworsetOpt<E>, c: AworsetOpt<E>)
    requires
        a.wf(),
        o.wf(),
        b.wf(),
        c.wf(),
        o.consistent(),
        AworsetOpt::join_post(&a, &o, &b),
        AworsetOpt::join_post(&b, &o, &c),
    ensures
        c.pl() == b.pl(),
        c.cc.cc_view() == b.cc.cc_view(),
        c.cc.dc_view() == b.cc.dc_view(),
{
    lemma_idempotent(a.pl(), a.cc, o.pl(), o.cc, b.pl(), b.cc, c.pl(), c.cc);
}

/// Joining two peers in either order gives the same elements and the same
/// causal context.
pub proof fn join_commutative<E: Element>(
    a: AworsetOpt<E>,
    b: AworsetOpt<E>,
    c: AworsetOpt<E>,
    ab: AworsetOpt<E>,
    abc: AworsetOpt<E>,
    ac: AworsetOpt<E>,
    acb: AworsetOpt<E>,
)
    requires
        a.wf(),
        b.wf(),
        c.wf(),
        ab.wf(),
        abc.wf(),
        ac.wf(),
        acb.wf(),
        a.consistent(),
        b.consistent(),
        c.consistent(),
        AworsetOpt::join_post(&a, &b, &ab),
        AworsetOpt::join_post(&ab, &c, &abc),
        AworsetOpt::join_post(&a, &c, &ac),
        AworsetOpt::join_post(&ac, &b, &acb),
    ensures
        abc.pl() == acb.pl(),
        abc.cc.cc_view() == acb.cc.cc_view(),
        abc.cc.dc_view() == acb.cc.dc_view(),
{
    lemma_commutative(a.pl(), a.cc, b.pl(), b.cc, c.pl(), c.cc, ab.pl(), ab.cc, abc.pl(), abc.cc, ac.pl(), ac.cc, acb.pl(), acb.cc);
}

/// Add wins in the set state of two replicas: a payload that `x` holds
/// under a dot that `y` has not seen survives their join in either order.
pub proof fn replica_add_wins<E: Element>(
    x: Handoff<E>,
    y: Handoff<E>,
    xy: Handoff<E>,
    yx: Handoff<E>,
    t: TaggedV<E::V>,
)
    requires
        Handoff::join_post(&x, &y, &xy),
        Handoff::join_post(&y, &x, &yx),
        x.pl().contains(t),
        !y.cc.knows_dot((t.0, t.1)),
    ensures
        xy.pl().contains(t),
        yx.pl().contains(t),
        values_of(xy.pl()).contains(t.2),
        values_of(yx.pl()).contains(t.2),
{
    lemma_add_wins(x.pl(), x.cc, y.pl(), y.cc, xy.pl(), xy.cc, yx.pl(), yx.cc, t);
}

/// Joining the set state of the same replica twice in a row changes nothing
/// the second time.
pub proof fn replica_join_idempotent<E: Element>(a: Handoff<E>, o: Handoff<E>, b: Handoff<E>, c: Handoff<E>)
    requires
        a.wf(),
        o.wf(),
        b.wf(),
        c.wf(),
        o.consistent(),
        Handoff::join_post(&a, &o, &b),
        Handoff::join_post(&b, &o, &c),
    ensures
        c.pl() == b.pl(),
        c.cc.cc_view() == b.cc.cc_view(),
        c.cc.dc_view() == b.cc.dc_view(),
{
    lemma_idempotent(a.pl(), a.cc, o.pl(), o.cc, b.pl(), b.cc, c.pl(), c.cc);
}

/// Joining the set states of two replicas in either order gives the same
/// payload and causal context.
pub proof fn replica_join_commutative<E: Element>(
    a: Handoff<E>,
    b: Handoff<E>,
    c: Handoff<E>,
    ab: Handoff<E>,
    abc: Handoff<E>,
    ac: Handoff<E>,
    acb: Handoff<E>,
)
    requires
        a.wf(),
        b.wf(),
        c.wf(),
        ab.wf(),
        abc.wf(),
        ac.wf(),
        acb.wf(),
        a.consistent(),
        b.consistent(),
        c.consistent(),
        Handoff::join_post(&a, &b, &ab),
        Handoff::join_post(&ab, &c, &abc),
        Handoff::join_post(&a, &c, &ac),
        Handoff::join_post(&ac, &b, &acb),
    ensures
        abc.pl() == acb.pl(),
        abc.cc.cc_view() == acb.cc.cc_view(),
        abc.cc.dc_view() == acb.cc.dc_view(),
{
    lemma_commutative(a.pl(), a.cc, b.pl(), b.cc, c.pl(), c.cc, ab.pl(), ab.cc, abc.pl(), abc.cc, ac.pl(), ac.cc, acb.pl(), acb.cc);
}

/// Add wins through a whole merge: two replicas of tier 0, where `x` holds an
/// element under a dot of its own that `y` has not seen (an add concurrent
/// with `y`'s remove), both hold the element after merging each other, in
/// either order.
pub proof fn merge_add_wins<E: Element>(
    x: Handoff<E>,
    y: Handoff<E>,
    x1: Handoff<E>,
    y1: Handoff<E>,
    y2: Handoff<E>,
    x2: Handoff<E>,
    t: TaggedV<E::V>,
)
    requires
        x.tier == 0,
        y.tier == 0,
        x.id@ != y.id@,
        x.pl().contains(t),
        t.0 == x.id@,
        !y.cc.knows_dot((t.0, t.1)),
        Handoff::merge_post(&x, &y, &x1),
        Handoff::merge_post(&y, &x1, &y1),
        Handoff::merge_post(&y, &x, &y2),
        Handoff::merge_post(&x, &y2, &x2),
    ensures
        x1.pl().contains(t),
        y1.pl().contains(t),
        y2.pl().contains(t),
        x2.pl().contains(t),
        x1.elements().contains(t.2),
        y1.elements().contains(t.2),
        y2.elements().contains(t.2),
        x2.elements().contains(t.2),
{
    lemma_merge_keeps(x, y, x1, t);
    lemma_merge_tier(x, y, x1);
    lemma_merge_keeps(y, x1, y1, t);
    lemma_merge_keeps(y, x, y2, t);
    lemma_merge_tier(y, x, y2);
    lemma_merge_keeps(x, y2, x2, t);
    assert(values_of(x1.pl()).contains(t.2));
    assert(values_of(y1.pl()).contains(t.2));
    assert(values_of(y2.pl()).contains(t.2));
    assert(values_of(x2.pl()).contains(t.2));
}

proof fn lemma_merge_tier<E: Element>(a: Handoff<E>, o: Handoff<E>, b: Handoff<E>)
    requires
        Handoff::merge_post(&a, &o, &b),
    ensures
        b.tier == a.tier,
        b.id == a.id,
{
    let s = choose|s: Seq<Handoff<E>>|
        {
            &&& s.len() == 11
            &&& s[0] == a
            &&& s[10] == b
            &&& Handoff::fill_slots_post(&s[0], &o, &s[1])
            &&& Handoff::discard_slot_post(&s[1], &o, &s[2])
            &&& Handoff::create_slot_post(&s[2], &o, &s[3])
            &&& Handoff::discard_transl_post(&s[3], &o, &s[4])
            &&& Handoff::translate_post(&s[4], &o, &s[5])
            &&& Handoff::cache_transl_post(&s[5], &o, &s[6])
            &&& Handoff::merge_vectors_post(&s[6], &o, &s[7])
            &&& Handoff::discard_tokens_post(&s[7], &o, &s[8])
            &&& Handoff::create_token_post(&s[8], &o, &s[9])
            &&& Handoff::cache_tokens_post(&s[9], &o, &s[10])
        };
}

/// Across a merge between tier-0 replicas, a payload survives when this side
/// holds it and the peer has not seen it, or both hold it; and a peer's
/// payload from another origin arrives when this side has not seen it.
proof fn lemma_merge_keeps<E: Element>(a: Handoff<E>, o: Handoff<E>, b: Handoff<E>, t: TaggedV<E::V>)
    requires
        a.tier == 0,
        o.tier == 0,
        Handoff::merge_post(&a, &o, &b),
        (a.pl().contains(t) && !o.cc.knows_dot((t.0, t.1))) || (a.pl().contains(t) && o.pl().contains(t)) || (o.pl().contains(t)
            && t.0 != a.id@ && !a.cc.knows_dot((t.0, t.1))),
    ensures
        b.pl().contains(t),
{
    let s = choose|s: Seq<Handoff<E>>|
        {
            &&& s.len() == 11
            &&& s[0] == a
            &&& s[10] == b
            &&& Handoff::fill_slots_post(&s[0], &o, &s[1])
            &&& Handoff::discard_slot_post(&s[1], &o, &s[2])
            &&& Handoff::create_slot_post(&s[2], &o, &s[3])
            &&& Handoff::discard_transl_post(&s[3], &o, &s[4])
            &&& Handoff::translate_post(&s[4], &o, &s[5])
            &&& Handoff::cache_transl_post(&s[5], &o, &s[6])
            &&& Handoff::merge_vectors_post(&s[6], &o, &s[7])
            &&& Handoff::discard_tokens_post(&s[7], &o, &s[8])
            &&& Handoff::create_token_post(&s[8], &o, &s[9])
            &&& Handoff::cache_tokens_post(&s[9], &o, &s[10])
        };
    lemma_fill_all_keeps(a.fill_view(), a.id@, crate::handoff::token_seq(o.tokens@));
    let fa = fill_all(a.fill_view(), a.id@, crate::handoff::token_seq(o.tokens@));
    assert(s[1].fill_view() == fa);
    assert(s[1].pl() == fa.0);
    assert(s[1].cc.cc_view() == fa.1);
    assert(a.fill_view().0 == a.pl());
    assert(a.fill_view().1 == a.cc.cc_view());
    let s6 = s[6];
    assert(s6.tier == 0);
    assert(s6.pl() == s[1].pl());
    assert(s6.cc == s[4].cc);
    assert(s6.cc.cc_view() == s[1].cc.cc_view());
    assert(s6.cc.dc_view() == a.cc.dc_view());
    assert(s[7].pl() == join_tagged(s6.pl(), s6.cc.cc_view(), s6.cc.dc_view(), o.pl(), o.cc.cc_view(), o.cc.dc_view()));
    if a.pl().contains(t) {
        assert(s6.pl().contains(t));
    } else {
        assert(t.0 != a.id@);
        assert(fa.1.contains_key(t.0) == a.cc.cc_view().contains_key(t.0));
        assert(s6.cc.knows_dot((t.0, t.1)) == a.cc.knows_dot((t.0, t.1)));
    }
    assert(s[7].pl().contains(t));
    assert(b.pl() == s[7].pl());
}

/// Filling only adds payloads and moves only the receiver's own counter.
proof fn lemma_fill_all_keeps<V>(st: FillV<V>, sid: IdV, toks: Seq<((IdV, IdV), crate::handoff::TokenV<V>)>)
    ensures
        forall|t: TaggedV<V>| st.0.contains(t) ==> #[trigger] fill_all(st, sid, toks).0.contains(t),
        forall|k: IdV|
            k != sid ==> (#[trigger] fill_all(st, sid, toks).1.contains_key(k) == st.1.contains_key(k) && (st.1.contains_key(k)
                ==> fill_all(st, sid, toks).1[k] == st.1[k])),
    decreases toks.len(),
{
    if toks.len() > 0 {
        lemma_fill_all_keeps(st, sid, toks.drop_last());
        let prev = fill_all(st, sid, toks.drop_last());
        assert(fill_all(st, sid, toks) == fill_step(prev, sid, toks.last().0, toks.last().1));
    }
}

proof fn lemma_add_wins<V>(
    px: Set<TaggedV<V>>,
    cx: DotContext,
    py: Set<TaggedV<V>>,
    cy: DotContext,
    pxy: Set<TaggedV<V>>,
    cxy: DotContext,
    pyx: Set<TaggedV<V>>,
    cyx: DotContext,
    t: TaggedV<V>,
)
    requires
        joined(px, cx, py, cy, pxy, cxy),
        joined(py, cy, px, cx, pyx, cyx),
        px.contains(t),
        !cy.knows_dot((t.0, t.1)),
    ensures
        pxy.contains(t),
        pyx.contains(t),
        values_of(pxy).contains(t.2),
        values_of(pyx).contains(t.2),
{
    assert(pxy.contains((t.0, t.1, t.2)));
    assert(pyx.contains((t.0, t.1, t.2)));
}

proof fn lemma_idempotent<V>(
    pa: Set<TaggedV<V>>,
    ca: DotContext,
    po: Set<TaggedV<V>>,
    co: DotContext,
    pb: Set<TaggedV<V>>,
    cb: DotContext,
    pc: Set<TaggedV<V>>,
    cc: DotContext,
)
    requires
        ca.wf(),
        co.wf(),
        cb.wf(),
        cc.wf(),
        consistent_with(po, co),
        joined(pa, ca, po, co, pb, cb),
        joined(pb, cb, po, co, pc, cc),
    ensures
        pc == pb,
        cc.cc_view() == cb.cc_view(),
        cc.dc_view() == cb.dc_view(),
{
    lemma_join_knows(ca, co, cb);
    lemma_join_knows(cb, co, cc);
    assert forall|t: TaggedV<V>| #[trigger] pc.contains(t) == pb.contains(t) by {
        if po.contains(t) {
            assert(co.knows_dot((t.0, t.1)));
            assert(cb.knows_dot((t.0, t.1)));
        }
    }
    assert(pc =~= pb);
    lemma_no_first_dot_in_cloud(cb);
    assert forall|k: IdV| #[trigger] cc.cc_view().contains_key(k) == cb.cc_view().contains_key(k) by {
        if co.dc_view().contains((k, 1)) {
            assert(cb.cc_view().contains_key(k));
        }
    }
    lemma_compact_unique(cb, cc);
}

proof fn lemma_commutative<V>(
    pa: Set<TaggedV<V>>,
    ca: DotContext,
    pb: Set<TaggedV<V>>,
    cb: DotContext,
    pc: Set<TaggedV<V>>,
    cc: DotContext,
    pab: Set<TaggedV<V>>,
    cab: DotContext,
    pabc: Set<TaggedV<V>>,
    cabc: DotContext,
    pac: Set<TaggedV<V>>,
    cac: DotContext,
    pacb: Set<TaggedV<V>>,
    cacb: DotContext,
)
    requires
        ca.wf(),
        cb.wf(),
        cc.wf(),
        cab.wf(),
        cabc.wf(),
        cac.wf(),
        cacb.wf(),
        consistent_with(pa, ca),
        consistent_with(pb, cb),
        consistent_with(pc, cc),
        joined(pa, ca, pb, cb, pab, cab),
        joined(pab, cab, pc, cc, pabc, cabc),
        joined(pa, ca, pc, cc, pac, cac),
        joined(pac, cac, pb, cb, pacb, cacb),
    ensures
        pabc == pacb,
        cabc.cc_view() == cacb.cc_view(),
        cabc.dc_view() == cacb.dc_view(),
{
    lemma_join_knows(ca, cb, cab);
    lemma_join_knows(cab, cc, cabc);
    lemma_join_knows(ca, cc, cac);
    lemma_join_knows(cac, cb, cacb);
    lemma_join_consistent(pa, ca, pb, cb, pab, cab);
    lemma_join_consistent(pa, ca, pc, cc, pac, cac);
    lemma_join_elements(pa, ca, pb, cb, pab, cab);
    lemma_join_elements(pab, cab, pc, cc, pabc, cabc);
    lemma_join_elements(pa, ca, pc, cc, pac, cac);
    lemma_join_elements(pac, cac, pb, cb, pacb, cacb);
    assert forall|t: TaggedV<V>| #[trigger] pabc.contains(t) == pacb.contains(t) by {
        if t.1 >= 1 {
            assert(cab.knows_dot((t.0, t.1)) == (ca.knows_dot((t.0, t.1)) || cb.knows_dot((t.0, t.1))));
            assert(cac.knows_dot((t.0, t.1)) == (ca.knows_dot((t.0, t.1)) || cc.knows_dot((t.0, t.1))));
        }
    }
    assert(pabc =~= pacb);
    lemma_no_first_dot_in_cloud(cab);
    lemma_no_first_dot_in_cloud(cac);
    assert forall|d: DotV| d.1 >= 1 implies (#[trigger] knows(cacb.cc_view(), cacb.dc_view(), d) == knows(
        cabc.cc_view(),
        cabc.dc_view(),
        d,
    )) by {
        assert(cabc.knows_dot(d) == (cab.knows_dot(d) || cc.knows_dot(d)));
        assert(cacb.knows_dot(d) == (cac.knows_dot(d) || cb.knows_dot(d)));
    }
    lemma_compact_unique(cabc, cacb);
}

/// The context of a join knows exactly the positive dots that either side
/// knew, and has a counter for exactly the origins that either side had or
/// whose first dot was in a cloud.
proof fn lemma_join_knows(x: DotContext, o: DotContext, r: DotContext)
    requires
        crate::dotcontext::compaction_of(cc_max(x.cc_view(), o.cc_view()), x.dc_view() + o.dc_view(), r.cc_view(), r.dc_view()),
    ensures
        forall|d: DotV| d.1 >= 1 ==> (#[trigger] r.knows_dot(d) == (x.knows_dot(d) || o.knows_dot(d))),
        forall|k: IdV| #[trigger] r.cc_view().contains_key(k) == (x.cc_view().contains_key(k) || o.cc_view().contains_key(k)
            || x.dc_view().contains((k, 1)) || o.dc_view().contains((k, 1))),
        r.is_compacted(),
{
    let m = cc_max(x.cc_view(), o.cc_view());
    assert forall|d: DotV| d.1 >= 1 implies (#[trigger] r.knows_dot(d) == (x.knows_dot(d) || o.knows_dot(d))) by {
        assert(knows(r.cc_view(), r.dc_view(), d) == knows(m, x.dc_view() + o.dc_view(), d));
    }
}

/// A well-formed compacted cloud holds no first dot of an origin.
proof fn lemma_no_first_dot_in_cloud(x: DotContext)
    requires
        x.wf(),
        x.is_compacted(),
    ensures
        forall|k: IdV| !(#[trigger] x.dc_view().contains((k, 1))),
{
    assert forall|k: IdV| !(#[trigger] x.dc_view().contains((k, 1))) by {
        if x.dc_view().contains((k, 1)) {
            assert(stuck(x.cc_view(), (k, 1)));
            lemma_counter_nonneg(&x, k);
        }
    }
}

/// A join of consistent states is consistent.
pub proof fn lemma_join_consistent<V>(
    pa: Set<TaggedV<V>>,
    ca: DotContext,
    pb: Set<TaggedV<V>>,
    cb: DotContext,
    pr: Set<TaggedV<V>>,
    cr: DotContext,
)
    requires
        consistent_with(pa, ca),
        consistent_with(pb, cb),
        joined(pa, ca, pb, cb, pr, cr),
    ensures
        consistent_with(pr, cr),
{
    lemma_join_knows(ca, cb, cr);
    assert forall|t: TaggedV<V>| #[trigger] pr.contains(t) implies t.1 >= 1 && cr.knows_dot((t.0, t.1)) by {
        if pa.contains(t) {
            assert(ca.knows_dot((t.0, t.1)));
        } else {
            assert(pb.contains(t));
            assert(cb.knows_dot((t.0, t.1)));
        }
    }
}

/// Between consistent states, a join holds exactly the elements that one
/// side holds and that every side which has seen their dot still holds.
proof fn lemma_join_elements<V>(
    pa: Set<TaggedV<V>>,
    ca: DotContext,
    pb: Set<TaggedV<V>>,
    cb: DotContext,
    pr: Set<TaggedV<V>>,
    cr: DotContext,
)
    requires
        consistent_with(pa, ca),
        consistent_with(pb, cb),
        joined(pa, ca, pb, cb, pr, cr),
    ensures
        forall|t: TaggedV<V>| #[trigger] pr.contains(t) == ((pa.contains(t) || pb.contains(t)) && (ca.knows_dot(
            (t.0, t.1),
        ) ==> pa.contains(t)) && (cb.knows_dot((t.0, t.1)) ==> pb.contains(t))),
{
    assert forall|t: TaggedV<V>| #[trigger] pr.contains(t) == ((pa.contains(t) || pb.contains(t)) && (ca.knows_dot(
        (t.0, t.1),
    ) ==> pa.contains(t)) && (cb.knows_dot((t.0, t.1)) ==> pb.contains(t))) by {
        if pa.contains(t) {
            assert(ca.knows_dot((t.0, t.1)));
        }
        if pb.contains(t) {
            assert(cb.knows_dot((t.0, t.1)));
        }
    }
}

} // verus!
