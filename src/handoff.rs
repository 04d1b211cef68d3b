//! The hand-off coordinator: one per replica. Besides the add-wins set state
//! (a causal context and payloads by origin) it keeps slots, tokens and
//! translations, through which a higher-tier replica hands its updates over
//! to a lower-tier one that renumbers them into its own history.
use vstd::prelude::*;

use crate::dotcontext::{cc_max, compaction_of, knows, lemma_counter_nonneg, DotContext};
use crate::keyed::{
    keys_unique, lemma_map_of_at, lemma_map_of_empty, lemma_map_of_index, lemma_map_of_prefix,
    lemma_filter_step, lemma_map_filter_start, lemma_map_of_push, lemma_map_of_remove_at,
    lemma_map_of_update, lemma_map_vals, lemma_to_set_empty, lemma_to_set_prefix,
    lemma_sum_full, lemma_sum_nonneg, lemma_sum_prefix, lemma_to_set_push, map_filter, map_of, map_vals, sum_of,
};
use crate::tagged::{
    consistent_with, copy_payloads, elem_views, elems_view, join_payload, join_tagged, joined, not_from, payload_seq,
    drop_elem, payload_views, push_new, values_of, without, without_origin, TaggedV,
};
use crate::types::{Ck, Dot, DotV, Element, IdV, NodeId, Payload, I64_BYTES};

verus! {
/// A batch of updates issued by `src` for `dst`: the clock of the slot it
/// answers, the half-open counter range `[n_initial, n_final)` it covers, and
/// the elements still alive in it.
#[derive(Clone, Debug)]
pub struct Token<E> {
    pub src: NodeId,
    pub dst: NodeId,
    pub ck: Ck,
    pub n_initial: i64,
    pub n_final: i64,
    pub elems: Vec<Payload<E>>,
}

/// Records that `src`'s history ending at `final_src` was renumbered into
/// `dst`'s own history ending at `final_dst`, under clock `ck`.
#[derive(Clone, Debug)]
pub struct Transl {
    pub src: NodeId,
    pub dst: NodeId,
    pub ck: Ck,
    pub final_src: i64,
    pub final_dst: i64,
}

/// Abstract token: clock, counter range, tagged elements.
pub type TokenV<V> = (Ck, (i64, i64), Set<(i64, V)>);

/// Abstract translation: clock and the two range ends.
pub type TranslV = (Ck, (i64, i64));

pub open spec fn slot_seq(s: Seq<(NodeId, Ck)>) -> Seq<(IdV, Ck)> {
    s.map_values(|e: (NodeId, Ck)| (e.0@, e.1))
}

pub open spec fn token_entry<E: Element>(t: Token<E>) -> ((IdV, IdV), TokenV<E::V>) {
    ((t.src@, t.dst@), (t.ck, (t.n_initial, t.n_final), elems_view(t.elems@)))
}

pub open spec fn token_seq<E: Element>(s: Seq<Token<E>>) -> Seq<((IdV, IdV), TokenV<E::V>)> {
    s.map_values(|t: Token<E>| token_entry(t))
}

pub open spec fn transl_entry(t: Transl) -> ((IdV, IdV), TranslV) {
    ((t.src@, t.dst@), (t.ck, (t.final_src, t.final_dst)))
}

pub open spec fn transl_seq(s: Seq<Transl>) -> Seq<((IdV, IdV), TranslV)> {
    s.map_values(|t: Transl| transl_entry(t))
}

/// The payloads of a token's set other than `v`.
pub open spec fn strip<V>(s: Set<(i64, V)>, v: V) -> Set<(i64, V)> {
    s.filter(|p: (i64, V)| p.1 != v)
}

pub open spec fn strip_token<V>(t: TokenV<V>, v: V) -> TokenV<V> {
    (t.0, t.1, strip(t.2, v))
}

/// Every token with `v` removed from its elements.
pub open spec fn strip_fn<V>(v: V) -> spec_fn(TokenV<V>) -> TokenV<V> {
    |t: TokenV<V>| strip_token(t, v)
}

pub open spec fn strip_tokens<V>(m: Map<(IdV, IdV), TokenV<V>>, v: V) -> Map<(IdV, IdV), TokenV<V>> {
    m.map_values(strip_fn(v))
}

/// Whether a token held under key `k` has been used up by the peer `oid`
/// whose slots are `oslots` and whose clock is `ock`.
pub open spec fn token_consumed<V>(k: (IdV, IdV), v: TokenV<V>, oid: IdV, oslots: Map<IdV, Ck>, ock: Ck) -> bool {
    k.1 == oid && if oslots.contains_key(k.0) {
        oslots[k.0].dck > v.0.dck
    } else {
        ock.dck > v.0.dck
    }
}

pub open spec fn keep_token<V>(oid: IdV, oslots: Map<IdV, Ck>, ock: Ck) -> spec_fn((IdV, IdV), TokenV<V>) -> bool {
    |k: (IdV, IdV), v: TokenV<V>| !token_consumed(k, v, oid, oslots, ock)
}

/// Whether the peer `oid`, whose context is `(occ, odc)`, has absorbed the
/// translation held under key `k`.
pub open spec fn transl_absorbed(k: (IdV, IdV), v: TranslV, oid: IdV, occ: Map<IdV, i64>, odc: Set<DotV>) -> bool {
    k.0 == oid && knows(occ, odc, (k.1, v.1.1))
}

pub open spec fn keep_transl(oid: IdV, occ: Map<IdV, i64>, odc: Set<DotV>) -> spec_fn((IdV, IdV), TranslV) -> bool {
    |k: (IdV, IdV), v: TranslV| !transl_absorbed(k, v, oid, occ, odc)
}

/// The own-origin elements of `pl` with a counter above `m`.
pub open spec fn own_after<V>(pl: Set<TaggedV<V>>, o: IdV, m: i64) -> Set<(i64, V)> {
    Set::new(|p: (i64, V)| pl.contains((o, p.0, p.1)) && p.0 > m)
}

/// Whether the token under `k` in `theirs` is one that the peer `oid` issued
/// for someone other than `sid`, and is not older than what `mine` holds.
pub open spec fn token_to_cache<V>(
    mine: Map<(IdV, IdV), TokenV<V>>,
    theirs: Map<(IdV, IdV), TokenV<V>>,
    oid: IdV,
    sid: IdV,
    k: (IdV, IdV),
) -> bool {
    &&& theirs.contains_key(k)
    &&& k.0 == oid
    &&& k.1 != sid
    &&& (mine.contains_key(k) ==> mine[k].0.sck <= theirs[k].0.sck)
}

/// `mine` with the tokens of `theirs` that are to be cached copied in.
pub open spec fn cache_tokens_into<V>(
    mine: Map<(IdV, IdV), TokenV<V>>,
    theirs: Map<(IdV, IdV), TokenV<V>>,
    oid: IdV,
    sid: IdV,
) -> Map<(IdV, IdV), TokenV<V>> {
    Map::new(
        |k: (IdV, IdV)| mine.contains_key(k) || token_to_cache(mine, theirs, oid, sid, k),
        |k: (IdV, IdV)|
            if token_to_cache(mine, theirs, oid, sid, k) {
                theirs[k]
            } else {
                mine[k]
            },
    )
}

/// `mine` with the translations of `theirs` whose destination dot is not yet
/// known to the context `(cc, dc)` copied in.
pub open spec fn cache_transl_into(
    mine: Map<(IdV, IdV), TranslV>,
    theirs: Map<(IdV, IdV), TranslV>,
    cc: Map<IdV, i64>,
    dc: Set<DotV>,
) -> Map<(IdV, IdV), TranslV> {
    Map::new(
        |k: (IdV, IdV)| mine.contains_key(k) || (theirs.contains_key(k) && !knows(cc, dc, (k.1, theirs[k].1.1))),
        |k: (IdV, IdV)|
            if theirs.contains_key(k) && !knows(cc, dc, (k.1, theirs[k].1.1)) {
                theirs[k]
            } else {
                mine[k]
            },
    )
}

/// The size in bytes of one `i32`.
pub const I32_BYTES: usize = 4;

/// Bytes of a slot: the peer and the clock pair.
pub open spec fn slot_bytes() -> spec_fn((NodeId, Ck)) -> int {
    |e: (NodeId, Ck)| e.0.num_bytes() + 2 * I64_BYTES
}

/// Bytes of a translation: both ends' identities, the clock pair and the two range ends.
pub open spec fn transl_bytes() -> spec_fn(Transl) -> int {
    |t: Transl| t.src.num_bytes() + t.dst.num_bytes() + 4 * I64_BYTES
}

/// Bytes of a payload.
pub open spec fn payload_bytes<E: Element>() -> spec_fn(Payload<E>) -> int {
    |p: Payload<E>| Payload::<E>::num_bytes()
}

/// Bytes of a payload entry: its origin and the payload.
pub open spec fn payload_entry_bytes<E: Element>() -> spec_fn((NodeId, Payload<E>)) -> int {
    |e: (NodeId, Payload<E>)| e.0.num_bytes() + Payload::<E>::num_bytes()
}

/// Bytes of a token: both ends' identities, the clock pair, the two range
/// ends, and its payloads.
pub open spec fn token_bytes<E: Element>() -> spec_fn(Token<E>) -> int {
    |t: Token<E>| t.src.num_bytes() + t.dst.num_bytes() + 4 * I64_BYTES + sum_of(t.elems@, payload_bytes::<E>())
}

/// What filling slots reads and writes: payload, counters, slots, translations.
pub type FillV<V> = (Set<TaggedV<V>>, Map<IdV, i64>, Map<IdV, Ck>, Map<(IdV, IdV), TranslV>);

/// The counter of `k` in `cc`, 0 when it has none.
pub open spec fn counter_of(cc: Map<IdV, i64>, k: IdV) -> i64 {
    if cc.contains_key(k) {
        cc[k]
    } else {
        0
    }
}

/// A token whose range is well formed, holds all its elements, and fits
/// after counter `curr`.
pub open spec fn fillable<V>(v: TokenV<V>, curr: i64) -> bool {
    &&& 1 <= v.1.0 <= v.1.1
    &&& v.1.1 - v.1.0 <= i64::MAX - curr
    &&& forall|p: (i64, V)| #[trigger] v.2.contains(p) ==> v.1.0 <= p.0 < v.1.1
}

/// The elements of a batch starting at `start`, renumbered to follow counter
/// `curr` of replica `sid`.
pub open spec fn renumbered<V>(elems: Set<(i64, V)>, start: i64, curr: i64, sid: IdV) -> Set<TaggedV<V>> {
    Set::new(
        |t: TaggedV<V>|
            t.0 == sid && exists|p: (i64, V)| #[trigger] elems.contains(p) && t.1 == p.0 - start + curr + 1 && t.2 == p.1,
    )
}

/// Filling with one token `(k, v)` of a peer, at replica `sid`: when it is
/// addressed to `sid` and matches the slot kept for its source, its elements
/// are renumbered into `sid`'s history, the counter advances over the range,
/// the slot is consumed and a translation is recorded.
pub open spec fn fill_step<V>(st: FillV<V>, sid: IdV, k: (IdV, IdV), v: TokenV<V>) -> FillV<V> {
    let curr = counter_of(st.1, sid);
    if k.1 == sid && st.2.contains_key(k.0) && st.2[k.0] == v.0 && fillable(v, curr) {
        let last = (curr + (v.1.1 - v.1.0)) as i64;
        (
            st.0 + renumbered(v.2, v.1.0, curr, sid),
            st.1.insert(sid, last),
            st.2.remove(k.0),
            st.3.insert(k, (v.0, ((v.1.1 - 1) as i64, last))),
        )
    } else {
        st
    }
}

/// Filling with the tokens `toks`, in order.
pub open spec fn fill_all<V>(st: FillV<V>, sid: IdV, toks: Seq<((IdV, IdV), TokenV<V>)>) -> FillV<V>
    decreases toks.len(),
{
    if toks.len() == 0 {
        st
    } else {
        fill_step(fill_all(st, sid, toks.drop_last()), sid, toks.last().0, toks.last().1)
    }
}

/// What a sender rebuilds from a peer's translations: counters, cloud dots
/// and tagged elements.
pub type RebuildV<V> = (Map<IdV, i64>, Set<DotV>, Set<TaggedV<V>>);

/// The dots of origin `o` with a counter in `[lo, hi)`.
pub open spec fn dot_range(o: IdV, lo: int, hi: int) -> Set<DotV> {
    Set::new(|d: DotV| d.0 == o && lo <= d.1 < hi)
}

/// The elements of a token moved to origin `o`, each counter shifted by `shift`.
pub open spec fn shifted<V>(elems: Set<(i64, V)>, o: IdV, shift: int) -> Set<TaggedV<V>> {
    Set::new(
        |t: TaggedV<V>| t.0 == o && exists|p: (i64, V)| #[trigger] elems.contains(p) && t.1 == shift + p.0 && t.2 == p.1,
    )
}

/// The lower end of the renumbered range that a translation `v` of a token
/// spanning `range` counters covers, and never below 1.
pub open spec fn rebuilt_low(v: TranslV, range: int) -> int {
    if v.1.1 - range + 1 >= 1 {
        v.1.1 - range + 1
    } else {
        1
    }
}

/// Rebuilding with one translation `(k, v)` of a peer, against the tokens
/// `tokens` held here: when the token under `k` has the translation's send
/// clock, the source's counter is raised to the translated end, the
/// renumbered range becomes known, and the token's elements appear under the
/// destination with their new counters.
pub open spec fn rebuild_step<V>(acc: RebuildV<V>, tokens: Map<(IdV, IdV), TokenV<V>>, k: (IdV, IdV), v: TranslV) -> RebuildV<V> {
    if tokens.contains_key(k) && v.0.sck == tokens[k].0.sck {
        let tk = tokens[k];
        let range = tk.1.1 - tk.1.0;
        let cc = if v.1.0 >= 0 {
            acc.0.insert(k.0, if acc.0.contains_key(k.0) && acc.0[k.0] >= v.1.0 { acc.0[k.0] } else { v.1.0 })
        } else {
            acc.0
        };
        (cc, acc.1 + dot_range(k.1, rebuilt_low(v, range), v.1.1 + 1), acc.2 + shifted(tk.2, k.1, v.1.1 - v.1.0))
    } else {
        acc
    }
}

/// Rebuilding with the translations `trs`, in order.
pub open spec fn rebuild_all<V>(acc: RebuildV<V>, tokens: Map<(IdV, IdV), TokenV<V>>, trs: Seq<((IdV, IdV), TranslV)>) -> RebuildV<V>
    decreases trs.len(),
{
    if trs.len() == 0 {
        acc
    } else {
        rebuild_step(rebuild_all(acc, tokens, trs.drop_last()), tokens, trs.last().0, trs.last().1)
    }
}

pub open spec fn empty_rebuild<V>() -> RebuildV<V> {
    (Map::empty(), Set::empty(), Set::empty())
}

/// The elements held by the tokens of a token map.
pub open spec fn token_values<V>(tk: Map<(IdV, IdV), TokenV<V>>) -> Set<V> {
    Set::new(|v: V| exists|k: (IdV, IdV), n: i64| tk.contains_key(k) && tk[k].2.contains((n, v)))
}

/// One replica of the tiered set.
#[derive(Clone, Debug)]
pub struct Handoff<E> {
    pub id: NodeId,
    pub tier: i32,
    pub ck: Ck,
    pub cc: DotContext,
    /// Tagged elements with their origin.
    pub payload: Vec<(NodeId, Payload<E>)>,
    /// Reservations for batches from higher-tier peers, by peer.
    pub slots: Vec<(NodeId, Ck)>,
    /// Batches issued by this replica or cached for others, by (source, destination).
    pub tokens: Vec<Token<E>>,
    /// Open renumbering obligations, by (source, destination).
    pub transl: Vec<Transl>,
    /// Highest own counter already packed into a token.
    pub last_send_n: i64,
}

impl<E: Element> Handoff<E> {
    pub open spec fn pl(&self) -> Set<TaggedV<E::V>> {
        payload_seq(self.payload@).to_set()
    }

    pub open spec fn slot_map(&self) -> Map<IdV, Ck> {
        map_of(slot_seq(self.slots@))
    }

    pub open spec fn token_map(&self) -> Map<(IdV, IdV), TokenV<E::V>> {
        map_of(token_seq(self.tokens@))
    }

    pub open spec fn transl_map(&self) -> Map<(IdV, IdV), TranslV> {
        map_of(transl_seq(self.transl@))
    }

    pub open spec fn wf(&self) -> bool {
        &&& self.cc.wf()
        &&& keys_unique(slot_seq(self.slots@))
        &&& keys_unique(token_seq(self.tokens@))
        &&& keys_unique(transl_seq(self.transl@))
    }

    /// What a read returns: committed elements and those in tokens.
    pub open spec fn elements(&self) -> Set<E::V> {
        values_of(self.pl()) + token_values(self.token_map())
    }

    /// Everything but the payload is as in `o`.
    pub open spec fn same_but_payload(&self, o: &Self) -> bool {
        &&& self.id == o.id
        &&& self.tier == o.tier
        &&& self.ck == o.ck
        &&& self.cc == o.cc
        &&& self.slots == o.slots
        &&& self.transl == o.transl
        &&& self.last_send_n == o.last_send_n
    }

    pub fn new(id: NodeId, tier: i32) -> (r: Handoff<E>)
        ensures
            r.wf(),
            r.consistent(),
            r.id@ == id@,
            r.tier == tier,
            r.ck == (Ck { sck: 1, dck: 1 }),
            r.cc.cc_view() == Map::<IdV, i64>::empty(),
            r.cc.dc_view() == Set::<DotV>::empty(),
            r.pl() == Set::<TaggedV<E::V>>::empty(),
            r.slot_map() == Map::<IdV, Ck>::empty(),
            r.token_map() == Map::<(IdV, IdV), TokenV<E::V>>::empty(),
            r.transl_map() == Map::<(IdV, IdV), TranslV>::empty(),
            r.last_send_n == 0,
    {
        let r = Handoff {
            id,
            tier,
            ck: Ck { sck: 1, dck: 1 },
            cc: DotContext::new(),
            payload: Vec::new(),
            slots: Vec::new(),
            tokens: Vec::new(),
            transl: Vec::new(),
            last_send_n: 0,
        };
        proof {
            lemma_to_set_empty(payload_seq(r.payload@));
            lemma_map_of_empty(slot_seq(r.slots@));
            lemma_map_of_empty(token_seq(r.tokens@));
            lemma_map_of_empty(transl_seq(r.transl@));
        }
        r
    }

    /// Adds `elem` under a fresh dot of this replica and returns the tagged payload.
    pub fn add_elem(&mut self, elem: E) -> (r: Payload<E>)
        requires
            old(self).wf(),
            old(self).cc.counter(old(self).id@) < i64::MAX,
        ensures
            final(self).wf(),
            r.n == old(self).cc.counter(old(self).id@) + 1,
            r.elem@ == elem@,
            final(self).pl() == old(self).pl().insert((old(self).id@, r.n, elem@)),
            final(self).cc.cc_view() == old(self).cc.cc_view().insert(old(self).id@, r.n),
            final(self).cc.dc_view() == old(self).cc.dc_view(),
            final(self).id == old(self).id,
            final(self).tier == old(self).tier,
            final(self).ck == old(self).ck,
            final(self).slots == old(self).slots,
            final(self).tokens == old(self).tokens,
            final(self).transl == old(self).transl,
            final(self).last_send_n == old(self).last_send_n,
            old(self).consistent() ==> final(self).consistent(),
    {
        let dot = self.cc.makedot(&self.id);
        let p = Payload { n: dot.n, elem };
        let entry = (self.id.copy_id(), p.copy_payload());
        proof {
            assert(payload_seq(self.payload@.push(entry)) =~= payload_seq(self.payload@).push((self.id@, p.n, p.elem@)));
            lemma_to_set_push(payload_seq(self.payload@), (self.id@, p.n, p.elem@));
        }
        self.payload.push(entry);
        proof {
            if old(self).consistent() {
                assert forall|t: TaggedV<E::V>| #[trigger] self.pl().contains(t) implies t.1 >= 1 && self.cc.knows_dot((t.0, t.1)) by {
                    if t != (self.id@, p.n, p.elem@) {
                        assert(old(self).pl().contains(t));
                        assert(old(self).cc.knows_dot((t.0, t.1)));
                        lemma_counter_nonneg(&old(self).cc, self.id@);
                    }
                }
            }
        }
        p
    }

    /// Removes every occurrence of `elem`, from the payload and from every token.
    pub fn rm_elem(&mut self, elem: E)
        requires
            old(self).wf(),
        ensures
            final(self).wf(),
            final(self).pl() == without(old(self).pl(), elem@),
            final(self).token_map() == strip_tokens(old(self).token_map(), elem@),
            final(self).elements() == old(self).elements().remove(elem@),
            final(self).id == old(self).id,
            final(self).tier == old(self).tier,
            final(self).ck == old(self).ck,
            final(self).cc == old(self).cc,
            final(self).slots == old(self).slots,
            final(self).transl == old(self).transl,
            final(self).last_send_n == old(self).last_send_n,
            old(self).consistent() ==> final(self).consistent(),
    {
        self.remove_payload_element(&elem);
        self.remove_token_element(&elem);
        proof {
            let a = old(self).elements().remove(elem@);
            let b = self.elements();
            assert forall|v: E::V| #[trigger] b.contains(v) == a.contains(v) by {
                if values_of(self.pl()).contains(v) {
                    let (o, n) = choose|o: IdV, n: i64| self.pl().contains((o, n, v));
                    assert(old(self).pl().contains((o, n, v)));
                }
                if token_values(self.token_map()).contains(v) {
                    let (k, n) = choose|k: (IdV, IdV), n: i64| self.token_map().contains_key(k) && self.token_map()[k].2.contains((n, v));
                    assert(old(self).token_map()[k].2.contains((n, v)));
                }
                if v != elem@ {
                    if values_of(old(self).pl()).contains(v) {
                        let (o, n) = choose|o: IdV, n: i64| old(self).pl().contains((o, n, v));
                        assert(self.pl().contains((o, n, v)));
                    }
                    if token_values(old(self).token_map()).contains(v) {
                        let (k, n) = choose|k: (IdV, IdV), n: i64| old(self).token_map().contains_key(k) && old(self).token_map()[k].2.contains((n, v));
                        assert(self.token_map()[k].2.contains((n, v)));
                    }
                }
            }
            assert(b =~= a);
        }
    }

    /// Drops from the payload every entry holding `elem`.
    fn remove_payload_element(&mut self, elem: &E)
        requires
            old(self).wf(),
        ensures
            final(self).wf(),
            final(self).pl() == without(old(self).pl(), elem@),
            final(self).same_but_payload(old(self)),
            final(self).tokens == old(self).tokens,
    {
        self.payload = drop_elem(&self.payload, elem);
    }

    /// Drops `elem` from the element set of every token.
    fn remove_token_element(&mut self, elem: &E)
        requires
            old(self).wf(),
        ensures
            final(self).wf(),
            final(self).token_map() == strip_tokens(old(self).token_map(), elem@),
            final(self).same_but_payload(old(self)),
            final(self).payload == old(self).payload,
    {
        let ghost g = strip_fn(elem@);
        let ghost s0 = token_seq(self.tokens@);
        let mut out: Vec<Token<E>> = Vec::new();
        let mut i: usize = 0;
        while i < self.tokens.len()
            invariant
                i <= self.tokens@.len(),
                s0 == token_seq(self.tokens@),
                g == strip_fn(elem@),
                token_seq(out@) == map_vals(s0.subrange(0, i as int), g),
            decreases self.tokens@.len() - i,
        {
            let t = &self.tokens[i];
            let elems = filter_elems(&t.elems, elem);
            let nt = Token {
                src: t.src.copy_id(),
                dst: t.dst.copy_id(),
                ck: t.ck,
                n_initial: t.n_initial,
                n_final: t.n_final,
                elems,
            };
            proof {
                assert(s0[i as int] == token_entry(self.tokens@[i as int]));
                assert(elems_view(nt.elems@) == strip(elems_view(self.tokens@[i as int].elems@), elem@));
                assert(g(s0[i as int].1) == strip_token(s0[i as int].1, elem@));
                assert(token_entry(nt).1 == g(s0[i as int].1));
                assert(token_entry(nt) == (s0[i as int].0, g(s0[i as int].1)));
                assert(token_seq(out@.push(nt)) =~= token_seq(out@).push(token_entry(nt)));
                assert(s0.subrange(0, i as int + 1) =~= s0.subrange(0, i as int).push(s0[i as int]));
                assert(map_vals(s0.subrange(0, i as int).push(s0[i as int]), g) =~= map_vals(s0.subrange(0, i as int), g).push((s0[i as int].0, g(s0[i as int].1))));
            }
            out.push(nt);
            i = i + 1;
        }
        proof {
            assert(s0.subrange(0, s0.len() as int) =~= s0);
            lemma_map_vals(s0, g);
        }
        self.tokens = out;
    }

    /// Whether this replica has own updates that no token carries yet.
    pub fn has_updates(&self) -> (r: bool)
        requires
            self.wf(),
        ensures
            r == (self.last_send_n < i64::MAX && self.cc.knows_dot((self.id@, (self.last_send_n + 1) as i64))),
    {
        if self.last_send_n == i64::MAX {
            return false;
        }
        let d = Dot { id: self.id.copy_id(), n: self.last_send_n + 1 };
        self.cc.dot_in(&d)
    }

    /// Position of the slot kept for `id`.
    fn find_slot(&self, id: &NodeId) -> (r: Option<usize>)
        requires
            self.wf(),
        ensures
            match r {
                Some(i) => i < self.slots@.len() && self.slots@[i as int].0@ == id@
                    && self.slot_map().contains_key(id@) && self.slot_map()[id@] == self.slots@[i as int].1,
                None => !self.slot_map().contains_key(id@),
            },
    {
        let ghost ss = slot_seq(self.slots@);
        let mut i: usize = 0;
        while i < self.slots.len()
            invariant
                i <= self.slots@.len(),
                self.wf(),
                ss == slot_seq(self.slots@),
                forall|j: int| 0 <= j < i ==> ss[j].0 != id@,
            decreases self.slots@.len() - i,
        {
            if self.slots[i].0.same_id(id) {
                proof {
                    lemma_map_of_at(ss, i as int);
                }
                return Some(i);
            }
            i = i + 1;
        }
        proof {
            if self.slot_map().contains_key(id@) {
                let j = choose|j: int| 0 <= j < ss.len() && ss[j].0 == id@;
            }
        }
        None
    }

    /// Position of the token held under `(src, dst)`.
    fn find_token(&self, src: &NodeId, dst: &NodeId) -> (r: Option<usize>)
        requires
            self.wf(),
        ensures
            match r {
                Some(i) => i < self.tokens@.len() && token_entry(self.tokens@[i as int]).0 == (src@, dst@)
                    && self.token_map().contains_key((src@, dst@))
                    && self.token_map()[(src@, dst@)] == token_entry(self.tokens@[i as int]).1,
                None => !self.token_map().contains_key((src@, dst@)),
            },
    {
        let ghost ts = token_seq(self.tokens@);
        let mut i: usize = 0;
        while i < self.tokens.len()
            invariant
                i <= self.tokens@.len(),
                self.wf(),
                ts == token_seq(self.tokens@),
                forall|j: int| 0 <= j < i ==> ts[j].0 != (src@, dst@),
            decreases self.tokens@.len() - i,
        {
            if self.tokens[i].src.same_id(src) && self.tokens[i].dst.same_id(dst) {
                proof {
                    lemma_map_of_at(ts, i as int);
                }
                return Some(i);
            }
            i = i + 1;
        }
        proof {
            if self.token_map().contains_key((src@, dst@)) {
                let j = choose|j: int| 0 <= j < ts.len() && ts[j].0 == (src@, dst@);
            }
        }
        None
    }

    /// Position of the translation held under `(src, dst)`.
    fn find_transl(&self, src: &NodeId, dst: &NodeId) -> (r: Option<usize>)
        requires
            self.wf(),
        ensures
            match r {
                Some(i) => i < self.transl@.len() && transl_entry(self.transl@[i as int]).0 == (src@, dst@)
                    && self.transl_map().contains_key((src@, dst@))
                    && self.transl_map()[(src@, dst@)] == transl_entry(self.transl@[i as int]).1,
                None => !self.transl_map().contains_key((src@, dst@)),
            },
    {
        let ghost ts = transl_seq(self.transl@);
        let mut i: usize = 0;
        while i < self.transl.len()
            invariant
                i <= self.transl@.len(),
                self.wf(),
                ts == transl_seq(self.transl@),
                forall|j: int| 0 <= j < i ==> ts[j].0 != (src@, dst@),
            decreases self.transl@.len() - i,
        {
            if self.transl[i].src.same_id(src) && self.transl[i].dst.same_id(dst) {
                proof {
                    lemma_map_of_at(ts, i as int);
                }
                return Some(i);
            }
            i = i + 1;
        }
        proof {
            if self.transl_map().contains_key((src@, dst@)) {
                let j = choose|j: int| 0 <= j < ts.len() && ts[j].0 == (src@, dst@);
            }
        }
        None
    }

    /// Stores `t` under its (source, destination) key, replacing what was there.
    fn put_token(&mut self, t: Token<E>)
        requires
            old(self).wf(),
        ensures
            final(self).wf(),
            final(self).token_map() == old(self).token_map().insert(token_entry(t).0, token_entry(t).1),
            final(self).same_but_payload(old(self)),
            final(self).payload == old(self).payload,
    {
        proof {
            assert(token_seq(self.tokens@.push(t)) =~= token_seq(self.tokens@).push(token_entry(t)));
        }
        match self.find_token(&t.src, &t.dst) {
            Some(i) => {
                proof {
                    assert(token_seq(self.tokens@.update(i as int, t)) =~= token_seq(self.tokens@).update(i as int, token_entry(t)));
                    lemma_map_of_update(token_seq(self.tokens@), i as int, token_entry(t));
                }
                self.tokens.set(i, t);
            },
            None => {
                proof {
                    lemma_map_of_push(token_seq(self.tokens@), token_entry(t));
                }
                self.tokens.push(t);
            },
        }
    }

    /// Stores `t` under its (source, destination) key, replacing what was there.
    fn put_transl(&mut self, t: Transl)
        requires
            old(self).wf(),
        ensures
            final(self).wf(),
            final(self).transl_map() == old(self).transl_map().insert(transl_entry(t).0, transl_entry(t).1),
            final(self).id == old(self).id,
            final(self).tier == old(self).tier,
            final(self).ck == old(self).ck,
            final(self).cc == old(self).cc,
            final(self).payload == old(self).payload,
            final(self).slots == old(self).slots,
            final(self).tokens == old(self).tokens,
            final(self).last_send_n == old(self).last_send_n,
    {
        proof {
            assert(transl_seq(self.transl@.push(t)) =~= transl_seq(self.transl@).push(transl_entry(t)));
        }
        match self.find_transl(&t.src, &t.dst) {
            Some(i) => {
                proof {
                    assert(transl_seq(self.transl@.update(i as int, t)) =~= transl_seq(self.transl@).update(i as int, transl_entry(t)));
                    lemma_map_of_update(transl_seq(self.transl@), i as int, transl_entry(t));
                }
                self.transl.set(i, t);
            },
            None => {
                proof {
                    lemma_map_of_push(transl_seq(self.transl@), transl_entry(t));
                }
                self.transl.push(t);
            },
        }
    }

    /// Drops the slot kept for `other` once `other` has sent past its clock:
    /// it can no longer be filled.
    pub fn discard_slot(&mut self, other: &Self)
        requires
            old(self).wf(),
        ensures
            final(self).wf(),
            Self::discard_slot_post(old(self), other, final(self)),
    {
        if let Some(i) = self.find_slot(&other.id) {
            if other.ck.sck > self.slots[i].1.sck {
                proof {
                    assert(slot_seq(self.slots@.remove(i as int)) =~= slot_seq(self.slots@).remove(i as int));
                    lemma_map_of_remove_at(slot_seq(self.slots@), i as int);
                }
                self.slots.remove(i);
            }
        }
    }

    /// Reserves a slot for `other` when it sits at a higher tier, has own
    /// updates to hand over, and has no slot here yet; the slot carries
    /// `other`'s send clock and this replica's receive clock, which then advances.
    pub fn create_slot(&mut self, other: &Self)
        requires
            old(self).wf(),
            other.wf(),
            old(self).ck.dck < i64::MAX,
        ensures
            final(self).wf(),
            Self::create_slot_post(old(self), other, final(self)),
    {
        if self.tier < other.tier && other.has_updates() && self.find_slot(&other.id).is_none() {
            let e = (other.id.copy_id(), Ck { sck: other.ck.sck, dck: self.ck.dck });
            proof {
                assert(slot_seq(self.slots@.push(e)) =~= slot_seq(self.slots@).push((e.0@, e.1)));
                lemma_map_of_push(slot_seq(self.slots@), (e.0@, e.1));
            }
            self.slots.push(e);
            self.ck.dck = self.ck.dck + 1;
        }
    }

    /// The effect of `merge`: the ten steps, in order.
    pub open spec fn merge_post(a: &Self, other: &Self, b: &Self) -> bool {
        exists|s: Seq<Self>|
            {
                &&& s.len() == 11
                &&& s[0] == *a
                &&& s[10] == *b
                &&& Self::fill_slots_post(&s[0], other, &s[1])
                &&& Self::discard_slot_post(&s[1], other, &s[2])
                &&& Self::create_slot_post(&s[2], other, &s[3])
                &&& Self::discard_transl_post(&s[3], other, &s[4])
                &&& Self::translate_post(&s[4], other, &s[5])
                &&& Self::cache_transl_post(&s[5], other, &s[6])
                &&& Self::merge_vectors_post(&s[6], other, &s[7])
                &&& Self::discard_tokens_post(&s[7], other, &s[8])
                &&& Self::create_token_post(&s[8], other, &s[9])
                &&& Self::cache_tokens_post(&s[9], other, &s[10])
            }
    }

    /// Merges a snapshot of a peer: fills slots, discards a stale slot,
    /// creates a slot, discards absorbed translations, translates, caches
    /// translations, joins the set state, discards used tokens, creates a
    /// token and caches tokens, in this order.
    pub fn merge(&mut self, other: &Self)
        requires
            old(self).wf(),
            other.wf(),
            old(self).ck.sck < i64::MAX,
            old(self).ck.dck < i64::MAX,
        ensures
            final(self).wf(),
            Self::merge_post(old(self), other, final(self)),
    {
        let ghost s0 = *self;
        self.fill_slots(other);
        let ghost s1 = *self;
        self.discard_slot(other);
        let ghost s2 = *self;
        self.create_slot(other);
        let ghost s3 = *self;
        self.discard_transl(other);
        let ghost s4 = *self;
        self.translate(other);
        let ghost s5 = *self;
        self.cache_transl(other);
        let ghost s6 = *self;
        self.merge_vectors(other);
        let ghost s7 = *self;
        self.discard_tokens(other);
        let ghost s8 = *self;
        self.create_token(other);
        let ghost s9 = *self;
        self.cache_tokens(other);
        proof {
            let s = seq![s0, s1, s2, s3, s4, s5, s6, s7, s8, s9, *self];
            assert(s[0] == s0 && s[1] == s1 && s[2] == s2 && s[3] == s3 && s[4] == s4 && s[5] == s5);
            assert(s[6] == s6 && s[7] == s7 && s[8] == s8 && s[9] == s9 && s[10] == *self);
            assert(Self::fill_slots_post(&s[0], other, &s[1]));
            assert(Self::discard_slot_post(&s[1], other, &s[2]));
            assert(Self::create_slot_post(&s[2], other, &s[3]));
            assert(Self::discard_transl_post(&s[3], other, &s[4]));
            assert(Self::translate_post(&s[4], other, &s[5]));
            assert(Self::cache_transl_post(&s[5], other, &s[6]));
            assert(Self::merge_vectors_post(&s[6], other, &s[7]));
            assert(Self::discard_tokens_post(&s[7], other, &s[8]));
            assert(Self::create_token_post(&s[8], other, &s[9]));
            assert(Self::cache_tokens_post(&s[9], other, &s[10]));
            assert(s.len() == 11);
            assert(Self::merge_post(&s0, other, &*self));
        }
    }

    /// The effect of `fill_slots`: `b` is what it makes of `a` with peer `other`.
    pub open spec fn fill_slots_post(a: &Self, other: &Self, b: &Self) -> bool {
        &&& b.fill_view() == fill_all(a.fill_view(), a.id@, token_seq(other.tokens@))
        &&& b.cc.dc_view() == a.cc.dc_view()
        &&& b.id == a.id
        &&& b.tier == a.tier
        &&& b.ck == a.ck
        &&& b.tokens == a.tokens
        &&& b.last_send_n == a.last_send_n
    }

    /// The effect of `discard_slot`: `b` is what it makes of `a` with peer `other`.
    pub open spec fn discard_slot_post(a: &Self, other: &Self, b: &Self) -> bool {
        &&& b.slot_map() == if a.slot_map().contains_key(other.id@) && other.ck.sck
            > a.slot_map()[other.id@].sck {
            a.slot_map().remove(other.id@)
        } else {
            a.slot_map()
        }
        &&& b.id == a.id
        &&& b.tier == a.tier
        &&& b.ck == a.ck
        &&& b.cc == a.cc
        &&& b.payload == a.payload
        &&& b.tokens == a.tokens
        &&& b.transl == a.transl
        &&& b.last_send_n == a.last_send_n
    }

    /// The effect of `create_slot`: `b` is what it makes of `a` with peer `other`.
    pub open spec fn create_slot_post(a: &Self, other: &Self, b: &Self) -> bool {
        &&& ({
            let go = a.tier < other.tier && other.has_updates_spec() && !a.slot_map().contains_key(
                other.id@,
            );
            &&& b.slot_map() == if go {
                a.slot_map().insert(other.id@, Ck { sck: other.ck.sck, dck: a.ck.dck })
            } else {
                a.slot_map()
            }
            &&& b.ck == if go {
                Ck { sck: a.ck.sck, dck: (a.ck.dck + 1) as i64 }
            } else {
                a.ck
            }
        })
        &&& b.id == a.id
        &&& b.tier == a.tier
        &&& b.cc == a.cc
        &&& b.payload == a.payload
        &&& b.tokens == a.tokens
        &&& b.transl == a.transl
        &&& b.last_send_n == a.last_send_n
    }

    /// The effect of `discard_transl`: `b` is what it makes of `a` with peer `other`.
    pub open spec fn discard_transl_post(a: &Self, other: &Self, b: &Self) -> bool {
        &&& b.transl_map() == if a.tier < other.tier {
            map_filter(a.transl_map(), keep_transl(other.id@, other.cc.cc_view(), other.cc.dc_view()))
        } else {
            a.transl_map()
        }
        &&& b.id == a.id
        &&& b.tier == a.tier
        &&& b.ck == a.ck
        &&& b.cc == a.cc
        &&& b.payload == a.payload
        &&& b.slots == a.slots
        &&& b.tokens == a.tokens
        &&& b.last_send_n == a.last_send_n
    }

    /// The effect of `translate`: `b` is what it makes of `a` with peer `other`.
    pub open spec fn translate_post(a: &Self, other: &Self, b: &Self) -> bool {
        &&& other.tier >= a.tier ==> *b == *a
        &&& other.tier < a.tier ==> ({
            let acc = rebuild_all(empty_rebuild(), a.token_map(), transl_seq(other.transl@));
            &&& b.pl() == join_tagged(a.pl(), a.cc.cc_view(), a.cc.dc_view(), acc.2, acc.0, acc.1)
            &&& compaction_of(
                cc_max(a.cc.cc_view(), acc.0),
                a.cc.dc_view() + acc.1,
                b.cc.cc_view(),
                b.cc.dc_view(),
            )
        })
        &&& b.id == a.id
        &&& b.tier == a.tier
        &&& b.ck == a.ck
        &&& b.slots == a.slots
        &&& b.tokens == a.tokens
        &&& b.transl == a.transl
        &&& b.last_send_n == a.last_send_n
    }

    /// The effect of `cache_transl`: `b` is what it makes of `a` with peer `other`.
    pub open spec fn cache_transl_post(a: &Self, other: &Self, b: &Self) -> bool {
        &&& b.transl_map() == if a.tier == other.tier {
            cache_transl_into(a.transl_map(), other.transl_map(), a.cc.cc_view(), a.cc.dc_view())
        } else {
            a.transl_map()
        }
        &&& b.id == a.id
        &&& b.tier == a.tier
        &&& b.ck == a.ck
        &&& b.cc == a.cc
        &&& b.payload == a.payload
        &&& b.slots == a.slots
        &&& b.tokens == a.tokens
        &&& b.last_send_n == a.last_send_n
    }

    /// The effect of `merge_vectors`: `b` is what it makes of `a` with peer `other`.
    pub open spec fn merge_vectors_post(a: &Self, other: &Self, b: &Self) -> bool {
        &&& ({
            let strip = !(a.tier == 0 && other.tier == 0) && a.tier <= other.tier;
            let opl = if strip { other.pl().filter(not_from(other.id@)) } else { other.pl() };
            let occ = if strip { other.cc.cc_view().remove(other.id@) } else { other.cc.cc_view() };
            let odc = if strip { other.cc.dc_view().filter(|d: DotV| d.0 != other.id@) } else { other.cc.dc_view() };
            &&& b.pl() == join_tagged(a.pl(), a.cc.cc_view(), a.cc.dc_view(), opl, occ, odc)
            &&& compaction_of(
                cc_max(a.cc.cc_view(), occ),
                a.cc.dc_view() + odc,
                b.cc.cc_view(),
                b.cc.dc_view(),
            )
        })
        &&& b.id == a.id
        &&& b.tier == a.tier
        &&& b.ck == a.ck
        &&& b.slots == a.slots
        &&& b.tokens == a.tokens
        &&& b.transl == a.transl
        &&& b.last_send_n == a.last_send_n
    }

    /// The effect of `discard_tokens`: `b` is what it makes of `a` with peer `other`.
    pub open spec fn discard_tokens_post(a: &Self, other: &Self, b: &Self) -> bool {
        &&& b.token_map() == map_filter(
            a.token_map(),
            keep_token(other.id@, other.slot_map(), other.ck),
        )
        &&& b.same_but_payload(a)
        &&& b.payload == a.payload
    }

    /// The effect of `create_token`: `b` is what it makes of `a` with peer `other`.
    pub open spec fn create_token_post(a: &Self, other: &Self, b: &Self) -> bool {
        &&& ({
            let curr = a.cc.counter(a.id@);
            let go = other.slot_map().contains_key(a.id@) && other.slot_map()[a.id@].sck
                == a.ck.sck && curr < i64::MAX && a.last_send_n < i64::MAX;
            &&& b.token_map() == if go {
                a.token_map().insert(
                    (a.id@, other.id@),
                    (
                        other.slot_map()[a.id@],
                        ((a.last_send_n + 1) as i64, (curr + 1) as i64),
                        own_after(a.pl(), a.id@, a.last_send_n),
                    ),
                )
            } else {
                a.token_map()
            }
            &&& b.ck == if go {
                Ck { sck: (a.ck.sck + 1) as i64, dck: a.ck.dck }
            } else {
                a.ck
            }
            &&& b.last_send_n == if go {
                curr
            } else {
                a.last_send_n
            }
        })
        &&& b.id == a.id
        &&& b.tier == a.tier
        &&& b.cc == a.cc
        &&& b.payload == a.payload
        &&& b.slots == a.slots
        &&& b.transl == a.transl
    }

    /// The effect of `cache_tokens`: `b` is what it makes of `a` with peer `other`.
    pub open spec fn cache_tokens_post(a: &Self, other: &Self, b: &Self) -> bool {
        &&& b.token_map() == if a.tier < other.tier {
            cache_tokens_into(a.token_map(), other.token_map(), other.id@, a.id@)
        } else {
            a.token_map()
        }
        &&& b.same_but_payload(a)
        &&& b.payload == a.payload
    }

    pub open spec fn has_updates_spec(&self) -> bool {
        self.last_send_n < i64::MAX && self.cc.knows_dot((self.id@, (self.last_send_n + 1) as i64))
    }

    /// Drops the tokens addressed to `other` that `other` has used up: its
    /// slot for the source, or else its receive clock, is past the token's.
    pub fn discard_tokens(&mut self, other: &Self)
        requires
            old(self).wf(),
            other.wf(),
        ensures
            final(self).wf(),
            Self::discard_tokens_post(old(self), other, final(self)),
    {
        let ghost keep = keep_token::<E::V>(other.id@, other.slot_map(), other.ck);
        let ghost s0 = token_seq(self.tokens@);
        let mut out: Vec<Token<E>> = Vec::new();
        let mut i: usize = 0;
        proof {
            lemma_map_filter_start(s0, token_seq(out@), keep);
        }
        while i < self.tokens.len()
            invariant
                i <= self.tokens@.len(),
                self.wf(),
                other.wf(),
                s0 == token_seq(self.tokens@),
                keep == keep_token::<E::V>(other.id@, other.slot_map(), other.ck),
                keys_unique(token_seq(out@)),
                map_of(token_seq(out@)) == map_filter(map_of(s0.subrange(0, i as int)), keep),
            decreases self.tokens@.len() - i,
        {
            proof {
                lemma_filter_step(s0, i as int, token_seq(out@), keep);
            }
            let t = &self.tokens[i];
            let consumed = t.dst.same_id(&other.id) && match other.find_slot(&t.src) {
                Some(j) => other.slots[j].1.dck > t.ck.dck,
                None => other.ck.dck > t.ck.dck,
            };
            if !consumed {
                let c = copy_token(t);
                proof {
                    assert(token_seq(out@.push(c)) =~= token_seq(out@).push(s0[i as int]));
                }
                out.push(c);
            }
            i = i + 1;
        }
        proof {
            assert(s0.subrange(0, s0.len() as int) =~= s0);
        }
        self.tokens = out;
    }

    /// Packs the own updates that no token carries yet into a token for
    /// `other` when `other` holds a slot for this replica at its current send
    /// clock; the send clock then advances and the packed counters are marked sent.
    pub fn create_token(&mut self, other: &Self)
        requires
            old(self).wf(),
            other.wf(),
            old(self).ck.sck < i64::MAX,
        ensures
            final(self).wf(),
            Self::create_token_post(old(self), other, final(self)),
    {
        if let Some(j) = other.find_slot(&self.id) {
            let ck = other.slots[j].1;
            let curr = self.cc.get_cc(&self.id);
            if ck.sck == self.ck.sck && curr < i64::MAX && self.last_send_n < i64::MAX {
                let elems = self.own_after(self.last_send_n);
                let t = Token {
                    src: self.id.copy_id(),
                    dst: other.id.copy_id(),
                    ck,
                    n_initial: self.last_send_n + 1,
                    n_final: curr + 1,
                    elems,
                };
                self.put_token(t);
                self.ck.sck = self.ck.sck + 1;
                self.last_send_n = curr;
            }
        }
    }

    /// Copies of the own payloads with a counter above `m`.
    fn own_after(&self, m: i64) -> (r: Vec<Payload<E>>)
        requires
            self.wf(),
        ensures
            elems_view(r@) == own_after(self.pl(), self.id@, m),
    {
        let ghost s0 = payload_seq(self.payload@);
        let mut out: Vec<Payload<E>> = Vec::new();
        let mut i: usize = 0;
        while i < self.payload.len()
            invariant
                i <= self.payload@.len(),
                s0 == payload_seq(self.payload@),
                forall|p: (i64, E::V)| #[trigger] elems_view(out@).contains(p) <==> exists|j: int| 0 <= j < i && s0[j] == (self.id@, p.0, p.1) && p.0 > m,
            decreases self.payload@.len() - i,
        {
            if self.payload[i].1.n > m && self.payload[i].0.same_id(&self.id) {
                let c = self.payload[i].1.copy_payload();
                proof {
                    assert(payload_views(out@.push(c)) =~= payload_views(out@).push(c@));
                    lemma_to_set_push(payload_views(out@), c@);
                    assert(elems_view(out@.push(c)) == elems_view(out@).insert(c@));
                    assert(s0[i as int] == (self.id@, c@.0, c@.1));
                    assert forall|p: (i64, E::V)| #[trigger] elems_view(out@.push(c)).contains(p) <==> exists|j: int| 0 <= j < i + 1 && s0[j] == (self.id@, p.0, p.1) && p.0 > m by {
                        if p == c@ {
                            assert(s0[i as int] == (self.id@, p.0, p.1));
                        }
                        if exists|j: int| 0 <= j < i + 1 && s0[j] == (self.id@, p.0, p.1) && p.0 > m {
                            let j = choose|j: int| 0 <= j < i + 1 && s0[j] == (self.id@, p.0, p.1) && p.0 > m;
                            if j == i {
                                assert(p == c@);
                            }
                        }
                    }
                }
                out.push(c);
            } else {
                proof {
                    assert forall|p: (i64, E::V)| #[trigger] elems_view(out@).contains(p) <==> exists|j: int| 0 <= j < i + 1 && s0[j] == (self.id@, p.0, p.1) && p.0 > m by {
                        if exists|j: int| 0 <= j < i + 1 && s0[j] == (self.id@, p.0, p.1) && p.0 > m {
                            let j = choose|j: int| 0 <= j < i + 1 && s0[j] == (self.id@, p.0, p.1) && p.0 > m;
                            if j == i {
                                assert(s0[i as int].0 == self.id@);
                            }
                        }
                    }
                }
            }
            i = i + 1;
        }
        proof {
            assert forall|p: (i64, E::V)| #[trigger] elems_view(out@).contains(p) == own_after(self.pl(), self.id@, m).contains(p) by {
                if self.pl().contains((self.id@, p.0, p.1)) && p.0 > m {
                    let j = choose|j: int| 0 <= j < s0.len() && s0[j] == (self.id@, p.0, p.1);
                }
                if exists|j: int| 0 <= j < i && s0[j] == (self.id@, p.0, p.1) && p.0 > m {
                    let j = choose|j: int| 0 <= j < i && s0[j] == (self.id@, p.0, p.1) && p.0 > m;
                    assert(s0.contains(s0[j]));
                }
            }
            assert(elems_view(out@) =~= own_after(self.pl(), self.id@, m));
        }
        out
    }

    /// At a lower tier than `other`, takes copies of the tokens that `other`
    /// issued for third replicas, unless an equally recent one is held.
    pub fn cache_tokens(&mut self, other: &Self)
        requires
            old(self).wf(),
            other.wf(),
        ensures
            final(self).wf(),
            Self::cache_tokens_post(old(self), other, final(self)),
    {
        if self.tier >= other.tier {
            return;
        }
        let ghost mine = self.token_map();
        let ghost s0 = token_seq(other.tokens@);
        let mut j: usize = 0;
        proof {
            lemma_map_of_empty(s0.subrange(0, 0));
            assert(cache_tokens_into(mine, map_of(s0.subrange(0, 0)), other.id@, self.id@) =~= mine);
        }
        while j < other.tokens.len()
            invariant
                j <= other.tokens@.len(),
                self.wf(),
                other.wf(),
                self.same_but_payload(old(self)),
                self.payload == old(self).payload,
                mine == old(self).token_map(),
                s0 == token_seq(other.tokens@),
                self.token_map() == cache_tokens_into(mine, map_of(s0.subrange(0, j as int)), other.id@, self.id@),
            decreases other.tokens@.len() - j,
        {
            proof {
                lemma_map_of_prefix(s0, j as int);
            }
            let ghost pj = map_of(s0.subrange(0, j as int));
            let ghost cur = self.token_map();
            let ghost k = s0[j as int].0;
            let ghost v = s0[j as int].1;
            let t = &other.tokens[j];
            if t.src.same_id(&other.id) && !t.dst.same_id(&self.id) {
                let newer = match self.find_token(&t.src, &t.dst) {
                    Some(i) => self.tokens[i].ck.sck <= t.ck.sck,
                    None => true,
                };
                if newer {
                    let c = copy_token(t);
                    self.put_token(c);
                    proof {
                        assert(self.token_map() =~= cache_tokens_into(mine, pj.insert(k, v), other.id@, self.id@));
                    }
                } else {
                    proof {
                        assert(cur =~= cache_tokens_into(mine, pj.insert(k, v), other.id@, self.id@));
                    }
                }
            } else {
                proof {
                    assert(cur =~= cache_tokens_into(mine, pj.insert(k, v), other.id@, self.id@));
                }
            }
            j = j + 1;
        }
        proof {
            assert(s0.subrange(0, s0.len() as int) =~= s0);
        }
    }

    /// At a lower tier than `other`, closes the translations towards `other`
    /// whose destination dot `other` already knows.
    pub fn discard_transl(&mut self, other: &Self)
        requires
            old(self).wf(),
            other.wf(),
        ensures
            final(self).wf(),
            Self::discard_transl_post(old(self), other, final(self)),
    {
        if self.tier >= other.tier {
            return;
        }
        let ghost keep = keep_transl(other.id@, other.cc.cc_view(), other.cc.dc_view());
        let ghost s0 = transl_seq(self.transl@);
        let mut out: Vec<Transl> = Vec::new();
        let mut i: usize = 0;
        proof {
            lemma_map_filter_start(s0, transl_seq(out@), keep);
        }
        while i < self.transl.len()
            invariant
                i <= self.transl@.len(),
                self.wf(),
                other.wf(),
                s0 == transl_seq(self.transl@),
                keep == keep_transl(other.id@, other.cc.cc_view(), other.cc.dc_view()),
                keys_unique(transl_seq(out@)),
                map_of(transl_seq(out@)) == map_filter(map_of(s0.subrange(0, i as int)), keep),
            decreases self.transl@.len() - i,
        {
            proof {
                lemma_filter_step(s0, i as int, transl_seq(out@), keep);
            }
            let t = &self.transl[i];
            let absorbed = t.src.same_id(&other.id) && other.cc.dot_in(&Dot { id: t.dst.copy_id(), n: t.final_dst });
            if !absorbed {
                let c = copy_transl(t);
                proof {
                    assert(transl_seq(out@.push(c)) =~= transl_seq(out@).push(s0[i as int]));
                }
                out.push(c);
            }
            i = i + 1;
        }
        proof {
            assert(s0.subrange(0, s0.len() as int) =~= s0);
        }
        self.transl = out;
    }

    /// Between replicas of one tier, takes the translations of `other` whose
    /// destination dot this replica does not know yet, so that they reach
    /// their target even through a peer.
    pub fn cache_transl(&mut self, other: &Self)
        requires
            old(self).wf(),
            other.wf(),
        ensures
            final(self).wf(),
            Self::cache_transl_post(old(self), other, final(self)),
    {
        if self.tier != other.tier {
            return;
        }
        let ghost mine = self.transl_map();
        let ghost s0 = transl_seq(other.transl@);
        let mut j: usize = 0;
        proof {
            lemma_map_of_empty(s0.subrange(0, 0));
            assert(cache_transl_into(mine, map_of(s0.subrange(0, 0)), self.cc.cc_view(), self.cc.dc_view()) =~= mine);
        }
        while j < other.transl.len()
            invariant
                j <= other.transl@.len(),
                self.wf(),
                other.wf(),
                self.id == old(self).id,
                self.tier == old(self).tier,
                self.ck == old(self).ck,
                self.cc == old(self).cc,
                self.payload == old(self).payload,
                self.slots == old(self).slots,
                self.tokens == old(self).tokens,
                self.last_send_n == old(self).last_send_n,
                mine == old(self).transl_map(),
                s0 == transl_seq(other.transl@),
                self.transl_map() == cache_transl_into(mine, map_of(s0.subrange(0, j as int)), self.cc.cc_view(), self.cc.dc_view()),
            decreases other.transl@.len() - j,
        {
            proof {
                lemma_map_of_prefix(s0, j as int);
            }
            let ghost pj = map_of(s0.subrange(0, j as int));
            let ghost cur = self.transl_map();
            let ghost k = s0[j as int].0;
            let ghost v = s0[j as int].1;
            let t = &other.transl[j];
            if !self.cc.dot_in(&Dot { id: t.dst.copy_id(), n: t.final_dst }) {
                let c = copy_transl(t);
                self.put_transl(c);
                proof {
                    assert(self.transl_map() =~= cache_transl_into(mine, pj.insert(k, v), self.cc.cc_view(), self.cc.dc_view()));
                }
            } else {
                proof {
                    assert(cur =~= cache_transl_into(mine, pj.insert(k, v), self.cc.cc_view(), self.cc.dc_view()));
                }
            }
            j = j + 1;
        }
        proof {
            assert(s0.subrange(0, s0.len() as int) =~= s0);
        }
    }

    /// Flat add-wins join with a peer's payload `opl` and context `occ`.
    fn join_parts(&mut self, opl: &Vec<(NodeId, Payload<E>)>, occ: &DotContext)
        requires
            old(self).wf(),
            occ.wf(),
        ensures
            final(self).wf(),
            final(self).pl() == join_tagged(
                old(self).pl(),
                old(self).cc.cc_view(),
                old(self).cc.dc_view(),
                payload_seq(opl@).to_set(),
                occ.cc_view(),
                occ.dc_view(),
            ),
            compaction_of(
                cc_max(old(self).cc.cc_view(), occ.cc_view()),
                old(self).cc.dc_view() + occ.dc_view(),
                final(self).cc.cc_view(),
                final(self).cc.dc_view(),
            ),
            forall|d: DotV| d.1 >= 1 ==> (#[trigger] final(self).cc.knows_dot(d) == (old(self).cc.knows_dot(d) || occ.knows_dot(d))),
            final(self).id == old(self).id,
            final(self).tier == old(self).tier,
            final(self).ck == old(self).ck,
            final(self).slots == old(self).slots,
            final(self).tokens == old(self).tokens,
            final(self).transl == old(self).transl,
            final(self).last_send_n == old(self).last_send_n,
    {
        join_payload(&mut self.payload, &mut self.cc, opl, occ);
    }

    /// The effect of `join`: `b` is what it makes of `a` with peer `other`.
    pub open spec fn join_post(a: &Self, other: &Self, b: &Self) -> bool {
        &&& joined(a.pl(), a.cc, other.pl(), other.cc, b.pl(), b.cc)
        &&& b.id == a.id
        &&& b.tier == a.tier
        &&& b.ck == a.ck
        &&& b.slots == a.slots
        &&& b.tokens == a.tokens
        &&& b.transl == a.transl
        &&& b.last_send_n == a.last_send_n
    }

    /// Every payload is positively tagged and its dot is known to the context.
    pub open spec fn consistent(&self) -> bool {
        consistent_with(self.pl(), self.cc)
    }

    /// Flat add-wins join with `other`'s payload and causal context.
    pub fn join(&mut self, other: &Self)
        requires
            old(self).wf(),
            other.wf(),
        ensures
            final(self).wf(),
            Self::join_post(old(self), other, final(self)),
            old(self).consistent() && other.consistent() ==> final(self).consistent(),
    {
        self.join_parts(&other.payload, &other.cc);
        proof {
            if old(self).consistent() && other.consistent() {
                crate::laws::lemma_join_consistent(old(self).pl(), old(self).cc, other.pl(), other.cc, self.pl(), self.cc);
            }
        }
    }

    /// Forgets everything that originated here: own payloads and own history.
    fn clear_local(&mut self)
        requires
            old(self).wf(),
        ensures
            final(self).wf(),
            final(self).pl() == old(self).pl().filter(not_from(old(self).id@)),
            final(self).cc.cc_view() == old(self).cc.cc_view().remove(old(self).id@),
            final(self).cc.dc_view() == old(self).cc.dc_view().filter(|d: DotV| d.0 != old(self).id@),
            final(self).id == old(self).id,
    {
        self.payload = without_origin(&self.payload, &self.id);
        self.cc.clean_id(&self.id);
    }

    /// Joins `other`; unless both are at tier 0, a replica at a tier not above
    /// `other`'s first strips `other`'s own-origin payloads and history, which
    /// reach it through tokens instead.
    pub fn merge_vectors(&mut self, other: &Self)
        requires
            old(self).wf(),
            other.wf(),
        ensures
            final(self).wf(),
            Self::merge_vectors_post(old(self), other, final(self)),
    {
        if !(self.tier == 0 && other.tier == 0) && self.tier <= other.tier {
            let mut prep: Handoff<E> = Handoff {
                id: other.id.copy_id(),
                tier: other.tier,
                ck: other.ck,
                cc: other.cc.copy_ctx(),
                payload: copy_payloads(&other.payload),
                slots: Vec::new(),
                tokens: Vec::new(),
                transl: Vec::new(),
                last_send_n: other.last_send_n,
            };
            proof {
                lemma_map_of_empty(slot_seq(prep.slots@));
                lemma_map_of_empty(token_seq(prep.tokens@));
                lemma_map_of_empty(transl_seq(prep.transl@));
            }
            prep.clear_local();
            self.join(&prep);
        } else {
            self.join(other);
        }
    }

    pub open spec fn fill_view(&self) -> FillV<E::V> {
        (self.pl(), self.cc.cc_view(), self.slot_map(), self.transl_map())
    }

    /// Consumes the tokens of `other` that match a slot kept here: their
    /// elements are renumbered into this replica's own history and a
    /// translation records the renumbering.
    pub fn fill_slots(&mut self, other: &Self)
        requires
            old(self).wf(),
            other.wf(),
        ensures
            final(self).wf(),
            Self::fill_slots_post(old(self), other, final(self)),
    {
        let ghost st0 = self.fill_view();
        let ghost ts = token_seq(other.tokens@);
        let mut j: usize = 0;
        proof {
            assert(ts.subrange(0, 0).len() == 0);
        }
        while j < other.tokens.len()
            invariant
                j <= other.tokens@.len(),
                self.wf(),
                other.wf(),
                ts == token_seq(other.tokens@),
                self.fill_view() == fill_all(st0, old(self).id@, ts.subrange(0, j as int)),
                self.cc.dc_view() == old(self).cc.dc_view(),
                self.id == old(self).id,
                self.tier == old(self).tier,
                self.ck == old(self).ck,
                self.tokens == old(self).tokens,
                self.last_send_n == old(self).last_send_n,
            decreases other.tokens@.len() - j,
        {
            proof {
                assert(ts.subrange(0, j as int + 1).drop_last() =~= ts.subrange(0, j as int));
                assert(ts.subrange(0, j as int + 1).last() == ts[j as int]);
            }
            let ghost before = self.fill_view();
            let t = &other.tokens[j];
            let ghost k = ts[j as int].0;
            let ghost v = ts[j as int].1;
            let mut done = false;
            if t.dst.same_id(&self.id) {
                if let Some(i) = self.find_slot(&t.src) {
                    let curr = self.cc.get_cc(&self.id);
                    if self.slots[i].1 == t.ck && 1 <= t.n_initial && t.n_initial <= t.n_final
                        && t.n_final - t.n_initial <= i64::MAX - curr && elems_within(&t.elems, t.n_initial, t.n_final) {
                        proof {
                            lemma_counter_nonneg(&self.cc, self.id@);
                        }
                        self.insert_elems(&t.elems, t.n_initial);
                        let last = curr + (t.n_final - t.n_initial);
                        self.cc.insert_cc(&Dot { id: self.id.copy_id(), n: last });
                        let tr = Transl {
                            src: t.src.copy_id(),
                            dst: t.dst.copy_id(),
                            ck: t.ck,
                            final_src: t.n_final - 1,
                            final_dst: last,
                        };
                        self.put_transl(tr);
                        proof {
                            assert(slot_seq(self.slots@.remove(i as int)) =~= slot_seq(self.slots@).remove(i as int));
                            lemma_map_of_remove_at(slot_seq(self.slots@), i as int);
                        }
                        self.slots.remove(i);
                        done = true;
                        proof {
                            assert(self.fill_view() == fill_step(before, old(self).id@, k, v));
                        }
                    }
                }
            }
            proof {
                if !done {
                    assert(fill_step(before, old(self).id@, k, v) == before);
                }
            }
            j = j + 1;
        }
        proof {
            assert(ts.subrange(0, ts.len() as int) =~= ts);
        }
    }

    /// Adds the elements of a batch starting at `start_n`, renumbered to
    /// follow this replica's own counter, as own payloads.
    fn insert_elems(&mut self, elems: &Vec<Payload<E>>, start_n: i64)
        requires
            old(self).wf(),
            forall|p: (i64, E::V)| #[trigger] elems_view(elems@).contains(p) ==> start_n <= p.0 && p.0 - start_n
                + old(self).cc.counter(old(self).id@) + 1 <= i64::MAX,
            old(self).cc.counter(old(self).id@) >= 0,
        ensures
            final(self).wf(),
            final(self).pl() == old(self).pl() + renumbered(
                elems_view(elems@),
                start_n,
                old(self).cc.counter(old(self).id@),
                old(self).id@,
            ),
            final(self).same_but_payload(old(self)),
            final(self).tokens == old(self).tokens,
    {
        let curr = self.cc.get_cc(&self.id);
        let ghost es = payload_views(elems@);
        let ghost start_pl = self.pl();
        let mut i: usize = 0;
        proof {
            lemma_to_set_empty(es.subrange(0, 0));
            assert(start_pl + renumbered(es.subrange(0, 0).to_set(), start_n, curr, self.id@) =~= start_pl);
        }
        while i < elems.len()
            invariant
                i <= elems@.len(),
                self.wf(),
                es == payload_views(elems@),
                curr == old(self).cc.counter(old(self).id@),
                curr >= 0,
                start_pl == old(self).pl(),
                forall|p: (i64, E::V)| #[trigger] elems_view(elems@).contains(p) ==> start_n <= p.0 && p.0 - start_n
                    + curr + 1 <= i64::MAX,
                self.pl() == start_pl + renumbered(es.subrange(0, i as int).to_set(), start_n, curr, self.id@),
                self.same_but_payload(old(self)),
                self.tokens == old(self).tokens,
            decreases elems@.len() - i,
        {
            proof {
                lemma_to_set_prefix(es, i as int);
                assert(es.contains(es[i as int]));
                assert(elems_view(elems@).contains(es[i as int]));
                assert(es[i as int].0 == elems@[i as int].n);
            }
            let e = &elems[i];
            let entry = (self.id.copy_id(), Payload { n: e.n - start_n + curr + 1, elem: e.elem.duplicate() });
            let ghost tv = (self.id@, entry.1.n, entry.1.elem@);
            proof {
                assert(payload_seq(self.payload@.push(entry)) =~= payload_seq(self.payload@).push(tv));
                lemma_to_set_push(payload_seq(self.payload@), tv);
                let pre = es.subrange(0, i as int).to_set();
                let q = es[i as int];
                assert(q == (e.n, e.elem@));
                assert forall|t: TaggedV<E::V>| #[trigger] renumbered(pre.insert(q), start_n, curr, self.id@).contains(t)
                    == renumbered(pre, start_n, curr, self.id@).insert(tv).contains(t) by {
                    if renumbered(pre.insert(q), start_n, curr, self.id@).contains(t) {
                        let p = choose|p: (i64, E::V)| #[trigger] pre.insert(q).contains(p) && t.1 == p.0 - start_n + curr + 1 && t.2 == p.1;
                        if p != q {
                            assert(pre.contains(p));
                        }
                    }
                    if t == tv {
                        assert(pre.insert(q).contains(q));
                    }
                    if renumbered(pre, start_n, curr, self.id@).contains(t) {
                        let p = choose|p: (i64, E::V)| #[trigger] pre.contains(p) && t.1 == p.0 - start_n + curr + 1 && t.2 == p.1;
                        assert(pre.insert(q).contains(p));
                    }
                }
                assert(renumbered(pre.insert(q), start_n, curr, self.id@) =~= renumbered(pre, start_n, curr, self.id@).insert(tv));
            }
            self.payload.push(entry);
            proof {
                let pre = es.subrange(0, i as int).to_set();
                assert(self.pl() =~= start_pl + renumbered(es.subrange(0, i as int + 1).to_set(), start_n, curr, self.id@));
            }
            i = i + 1;
        }
        proof {
            assert(es.subrange(0, es.len() as int) =~= es);
        }
    }

    /// At a higher tier than `other`, adopts the renumbering of the tokens
    /// held here that `other`'s translations report as absorbed: the rebuilt
    /// counters, dots and elements are joined in.
    pub fn translate(&mut self, other: &Self)
        requires
            old(self).wf(),
            other.wf(),
        ensures
            final(self).wf(),
            Self::translate_post(old(self), other, final(self)),
    {
        if other.tier >= self.tier {
            return;
        }
        let mut res_cc = DotContext::new();
        let mut res_pl: Vec<(NodeId, Payload<E>)> = Vec::new();
        let ghost trs = transl_seq(other.transl@);
        let ghost tokens = self.token_map();
        let mut j: usize = 0;
        proof {
            lemma_to_set_empty(payload_seq(res_pl@));
            assert(trs.subrange(0, 0).len() == 0);
            assert(res_cc.cc_view() == empty_rebuild::<E::V>().0);
        }
        while j < other.transl.len()
            invariant
                j <= other.transl@.len(),
                self.wf(),
                other.wf(),
                res_cc.wf(),
                *self == *old(self),
                trs == transl_seq(other.transl@),
                tokens == self.token_map(),
                (res_cc.cc_view(), res_cc.dc_view(), payload_seq(res_pl@).to_set()) == rebuild_all(
                    empty_rebuild(),
                    tokens,
                    trs.subrange(0, j as int),
                ),
            decreases other.transl@.len() - j,
        {
            proof {
                assert(trs.subrange(0, j as int + 1).drop_last() =~= trs.subrange(0, j as int));
                assert(trs.subrange(0, j as int + 1).last() == trs[j as int]);
            }
            let t = &other.transl[j];
            let ghost acc = (res_cc.cc_view(), res_cc.dc_view(), payload_seq(res_pl@).to_set());
            let ghost k = trs[j as int].0;
            let ghost v = trs[j as int].1;
            let mut applied = false;
            if let Some(i) = self.find_token(&t.src, &t.dst) {
                if self.tokens[i].ck.sck == t.ck.sck {
                    let tk = &self.tokens[i];
                    rebuild_one(t, tk, &mut res_cc, &mut res_pl);
                    applied = true;
                    proof {
                        let single = map![k => token_entry(*tk).1];
                        assert(single.contains_key(k) && single[k] == tokens[k]);
                        assert(rebuild_step(acc, single, k, v) == rebuild_step(acc, tokens, k, v));
                    }
                }
            }
            proof {
                if !applied {
                    assert(rebuild_step(acc, tokens, k, v) == acc);
                }
            }
            j = j + 1;
        }
        proof {
            assert(trs.subrange(0, trs.len() as int) =~= trs);
        }
        self.join_parts(&res_pl, &res_cc);
    }

    pub open spec fn num_bytes(&self) -> int {
        self.id.num_bytes() + I32_BYTES + 2 * I64_BYTES + self.cc.num_bytes() + sum_of(self.payload@, payload_entry_bytes::<E>())
            + sum_of(self.slots@, slot_bytes()) + sum_of(self.transl@, transl_bytes()) + sum_of(self.tokens@, token_bytes::<E>())
            + I64_BYTES
    }

    /// The sum of the byte sizes of every field: identity, tier, clocks,
    /// causal context, every payload entry, slot, translation and token, and
    /// the last sent counter.
    pub fn get_num_bytes(&self) -> (r: usize)
        requires
            self.num_bytes() <= usize::MAX,
        ensures
            r as int == self.num_bytes(),
    {
        proof {
            lemma_handoff_bytes_nonneg::<E>();
            lemma_sum_nonneg(self.payload@, payload_entry_bytes::<E>());
            lemma_sum_full(self.payload@, payload_entry_bytes::<E>());
            lemma_sum_nonneg(self.slots@, slot_bytes());
            lemma_sum_nonneg(self.transl@, transl_bytes());
            lemma_sum_nonneg(self.tokens@, token_bytes::<E>());
            lemma_sum_full(self.slots@, slot_bytes());
            lemma_sum_full(self.transl@, transl_bytes());
            lemma_sum_full(self.tokens@, token_bytes::<E>());
            assert(self.cc.num_bytes() >= 0) by {
                lemma_sum_nonneg(self.cc.dc@, crate::dotcontext::dot_bytes());
                lemma_sum_nonneg(self.cc.cc@, crate::dotcontext::cc_entry_bytes());
            }
        }
        let mut total: usize = self.id.get_num_bytes();
        total = total + I32_BYTES;
        total = total + I64_BYTES * 2;
        total = total + self.cc.get_num_bytes();
        let ghost base = total as int;
        let mut i: usize = 0;
        while i < self.payload.len()
            invariant
                i <= self.payload@.len(),
                self.num_bytes() <= usize::MAX,
                base == self.id.num_bytes() + I32_BYTES + 2 * I64_BYTES + self.cc.num_bytes(),
                sum_of(self.slots@, slot_bytes()) >= 0,
                sum_of(self.transl@, transl_bytes()) >= 0,
                sum_of(self.tokens@, token_bytes::<E>()) >= 0,
                forall|e: (NodeId, Payload<E>)| #[trigger] payload_entry_bytes::<E>()(e) >= 0,
                total as int == base + sum_of(self.payload@.subrange(0, i as int), payload_entry_bytes::<E>()),
            decreases self.payload@.len() - i,
        {
            proof {
                lemma_sum_prefix(self.payload@, payload_entry_bytes::<E>(), i as int);
            }
            total = total + self.payload[i].0.get_num_bytes();
            total = total + self.payload[i].1.get_num_bytes();
            i = i + 1;
        }
        let ghost base = total as int;
        let mut i: usize = 0;
        while i < self.slots.len()
            invariant
                i <= self.slots@.len(),
                self.num_bytes() <= usize::MAX,
                base == self.id.num_bytes() + I32_BYTES + 2 * I64_BYTES + self.cc.num_bytes() + sum_of(self.payload@, payload_entry_bytes::<E>()),
                sum_of(self.transl@, transl_bytes()) >= 0,
                sum_of(self.tokens@, token_bytes::<E>()) >= 0,
                forall|e: (NodeId, Ck)| #[trigger] slot_bytes()(e) >= 0,
                total as int == base + sum_of(self.slots@.subrange(0, i as int), slot_bytes()),
            decreases self.slots@.len() - i,
        {
            proof {
                lemma_sum_prefix(self.slots@, slot_bytes(), i as int);
            }
            total = total + self.slots[i].0.get_num_bytes();
            total = total + I64_BYTES * 2;
            i = i + 1;
        }
        let ghost base = total as int;
        let mut i: usize = 0;
        while i < self.transl.len()
            invariant
                i <= self.transl@.len(),
                self.num_bytes() <= usize::MAX,
                base == self.id.num_bytes() + I32_BYTES + 2 * I64_BYTES + self.cc.num_bytes() + sum_of(self.payload@, payload_entry_bytes::<E>()) + sum_of(self.slots@, slot_bytes()),
                sum_of(self.tokens@, token_bytes::<E>()) >= 0,
                forall|t: Transl| #[trigger] transl_bytes()(t) >= 0,
                total as int == base + sum_of(self.transl@.subrange(0, i as int), transl_bytes()),
            decreases self.transl@.len() - i,
        {
            proof {
                lemma_sum_prefix(self.transl@, transl_bytes(), i as int);
            }
            total = total + self.transl[i].src.get_num_bytes();
            total = total + self.transl[i].dst.get_num_bytes();
            total = total + I64_BYTES * 4;
            i = i + 1;
        }
        let ghost base = total as int;
        let mut i: usize = 0;
        while i < self.tokens.len()
            invariant
                i <= self.tokens@.len(),
                self.num_bytes() <= usize::MAX,
                base == self.id.num_bytes() + I32_BYTES + 2 * I64_BYTES + self.cc.num_bytes() + sum_of(self.payload@, payload_entry_bytes::<E>()) + sum_of(self.slots@, slot_bytes())
                    + sum_of(self.transl@, transl_bytes()),
                forall|t: Token<E>| #[trigger] token_bytes::<E>()(t) >= 0,
                forall|p: Payload<E>| #[trigger] payload_bytes::<E>()(p) >= 0,
                total as int == base + sum_of(self.tokens@.subrange(0, i as int), token_bytes::<E>()),
            decreases self.tokens@.len() - i,
        {
            proof {
                lemma_sum_prefix(self.tokens@, token_bytes::<E>(), i as int);
                lemma_sum_full(self.tokens@[i as int].elems@, payload_bytes::<E>());
            }
            let t = &self.tokens[i];
            proof {
                lemma_sum_nonneg(t.elems@, payload_bytes::<E>());
                assert(token_bytes::<E>()(*t) == t.src.num_bytes() + t.dst.num_bytes() + 4 * I64_BYTES + sum_of(
                    t.elems@,
                    payload_bytes::<E>(),
                ));
                assert(t.src.num_bytes() >= 0 && t.dst.num_bytes() >= 0);
            }
            let ghost before = total as int;
            total = total + t.src.get_num_bytes();
            total = total + t.dst.get_num_bytes();
            total = total + I64_BYTES * 4;
            let ghost mid = total as int;
            let mut k: usize = 0;
            while k < t.elems.len()
                invariant
                    k <= t.elems@.len(),
                    forall|p: Payload<E>| #[trigger] payload_bytes::<E>()(p) >= 0,
                    mid + sum_of(t.elems@, payload_bytes::<E>()) <= usize::MAX,
                    total as int == mid + sum_of(t.elems@.subrange(0, k as int), payload_bytes::<E>()),
                decreases t.elems@.len() - k,
            {
                proof {
                    lemma_sum_prefix(t.elems@, payload_bytes::<E>(), k as int);
                }
                total = total + t.elems[k].get_num_bytes();
                k = k + 1;
            }
            i = i + 1;
        }
        total = total + I64_BYTES;
        total
    }

    /// The elements of the set: those committed in the payload and those
    /// staged in tokens, each once.
    pub fn fetch(&self) -> (r: Vec<E>)
        requires
            self.wf(),
        ensures
            elem_views(r@).to_set() == self.elements(),
            elem_views(r@).no_duplicates(),
    {
        let mut r: Vec<E> = Vec::new();
        let mut i: usize = 0;
        let ghost ps = payload_seq(self.payload@);
        while i < self.payload.len()
            invariant
                i <= self.payload@.len(),
                ps == payload_seq(self.payload@),
                elem_views(r@).no_duplicates(),
                forall|v: E::V| #[trigger] elem_views(r@).contains(v) <==> exists|j: int| 0 <= j < i && ps[j].2 == v,
            decreases self.payload@.len() - i,
        {
            push_new(&mut r, &self.payload[i].1.elem);
            proof {
                assert forall|v: E::V| #[trigger] elem_views(r@).contains(v) <==> exists|j: int| 0 <= j < i + 1 && ps[j].2 == v by {
                    if v == ps[i as int].2 {
                        assert(0 <= i < i + 1 && ps[i as int].2 == v);
                    }
                }
            }
            i = i + 1;
        }
        let mut t: usize = 0;
        let ghost ts = token_seq(self.tokens@);
        while t < self.tokens.len()
            invariant
                t <= self.tokens@.len(),
                i == self.payload@.len(),
                ps == payload_seq(self.payload@),
                ts == token_seq(self.tokens@),
                elem_views(r@).no_duplicates(),
                forall|v: E::V| #[trigger] elem_views(r@).contains(v) <==> (exists|j: int| 0 <= j < i && ps[j].2 == v)
                    || (exists|j: int, n: i64| 0 <= j < t && ts[j].1.2.contains((n, v))),
            decreases self.tokens@.len() - t,
        {
            let mut k: usize = 0;
            let ghost es = payload_views(self.tokens@[t as int].elems@);
            while k < self.tokens[t].elems.len()
                invariant
                    t < self.tokens@.len(),
                    k <= self.tokens@[t as int].elems@.len(),
                    i == self.payload@.len(),
                    ps == payload_seq(self.payload@),
                    ts == token_seq(self.tokens@),
                    es == payload_views(self.tokens@[t as int].elems@),
                    ts[t as int].1.2 == es.to_set(),
                    elem_views(r@).no_duplicates(),
                    forall|v: E::V| #[trigger] elem_views(r@).contains(v) <==> (exists|j: int| 0 <= j < i && ps[j].2 == v)
                        || (exists|j: int, n: i64| 0 <= j < t && ts[j].1.2.contains((n, v)))
                        || (exists|j: int| 0 <= j < k && es[j].1 == v),
                decreases self.tokens@[t as int].elems@.len() - k,
            {
                push_new(&mut r, &self.tokens[t].elems[k].elem);
                proof {
                    assert forall|v: E::V| #[trigger] elem_views(r@).contains(v) <==> (exists|j: int| 0 <= j < i && ps[j].2 == v)
                        || (exists|j: int, n: i64| 0 <= j < t && ts[j].1.2.contains((n, v)))
                        || (exists|j: int| 0 <= j < k + 1 && es[j].1 == v) by {
                        if v == es[k as int].1 {
                            assert(0 <= k < k + 1 && es[k as int].1 == v);
                        }
                    }
                }
                k = k + 1;
            }
            proof {
                assert forall|v: E::V| #[trigger] elem_views(r@).contains(v) <==> (exists|j: int| 0 <= j < i && ps[j].2 == v)
                    || (exists|j: int, n: i64| 0 <= j < t + 1 && ts[j].1.2.contains((n, v))) by {
                    if exists|j: int| 0 <= j < k && es[j].1 == v {
                        let j = choose|j: int| 0 <= j < k && es[j].1 == v;
                        assert(es.contains(es[j]));
                        assert(ts[t as int].1.2.contains((es[j].0, v)));
                    }
                    if exists|n: i64| ts[t as int].1.2.contains((n, v)) {
                        let n = choose|n: i64| ts[t as int].1.2.contains((n, v));
                        assert(es.contains((n, v)));
                        let j = choose|j: int| 0 <= j < es.len() && es[j] == (n, v);
                        assert(es[j].1 == v);
                    }
                }
            }
            t = t + 1;
        }
        proof {
            let rv = elem_views(r@);
            assert forall|v: E::V| #[trigger] rv.to_set().contains(v) == self.elements().contains(v) by {
                if exists|j: int| 0 <= j < i && ps[j].2 == v {
                    let j = choose|j: int| 0 <= j < i && ps[j].2 == v;
                    assert(ps.contains(ps[j]));
                    assert(self.pl().contains((ps[j].0, ps[j].1, v)));
                }
                if exists|j: int, n: i64| 0 <= j < t && ts[j].1.2.contains((n, v)) {
                    let (j, n) = choose|j: int, n: i64| 0 <= j < t && ts[j].1.2.contains((n, v));
                    lemma_map_of_at(ts, j);
                }
                if values_of(self.pl()).contains(v) {
                    let (o, n) = choose|o: IdV, n: i64| self.pl().contains((o, n, v));
                    let j = choose|j: int| 0 <= j < ps.len() && ps[j] == (o, n, v);
                    assert(ps[j].2 == v);
                }
                if token_values(self.token_map()).contains(v) {
                    let (k, n) = choose|k: (IdV, IdV), n: i64| self.token_map().contains_key(k) && self.token_map()[k].2.contains((n, v));
                    let j = lemma_map_of_index(ts, k);
                    assert(0 <= j < t && ts[j].1.2.contains((n, v)));
                }
            }
            assert(rv.to_set() =~= self.elements());
        }
        r
    }
}

proof fn lemma_handoff_bytes_nonneg<E: Element>()
    ensures
        forall|e: (NodeId, Payload<E>)| #[trigger] payload_entry_bytes::<E>()(e) >= 0,
        forall|e: (NodeId, Ck)| #[trigger] slot_bytes()(e) >= 0,
        forall|t: Transl| #[trigger] transl_bytes()(t) >= 0,
        forall|p: Payload<E>| #[trigger] payload_bytes::<E>()(p) >= 0,
        forall|t: Token<E>| #[trigger] token_bytes::<E>()(t) >= 0,
{
    assert forall|t: Token<E>| #[trigger] token_bytes::<E>()(t) >= 0 by {
        lemma_sum_nonneg(t.elems@, payload_bytes::<E>());
    }
}

/// Whether every payload of `elems` has a counter in `[lo, hi)`.
fn elems_within<E: Element>(elems: &Vec<Payload<E>>, lo: i64, hi: i64) -> (r: bool)
    ensures
        r == forall|p: (i64, E::V)| #[trigger] elems_view(elems@).contains(p) ==> lo <= p.0 < hi,
{
    let ghost es = payload_views(elems@);
    let mut i: usize = 0;
    while i < elems.len()
        invariant
            i <= elems@.len(),
            es == payload_views(elems@),
            forall|j: int| 0 <= j < i ==> lo <= #[trigger] es[j].0 < hi,
        decreases elems@.len() - i,
    {
        if elems[i].n < lo || elems[i].n >= hi {
            assert(es.contains(es[i as int]));
            assert(elems_view(elems@).contains(es[i as int]));
            assert(es[i as int].0 == elems@[i as int].n);
            return false;
        }
        i = i + 1;
    }
    proof {
        assert forall|p: (i64, E::V)| #[trigger] elems_view(elems@).contains(p) implies lo <= p.0 < hi by {
            let j = choose|j: int| 0 <= j < es.len() && es[j] == p;
        }
    }
    true
}

/// Adds to `(res_cc, res_pl)` what translation `t` of token `tk` reports.
fn rebuild_one<E: Element>(t: &Transl, tk: &Token<E>, res_cc: &mut DotContext, res_pl: &mut Vec<(NodeId, Payload<E>)>)
    requires
        old(res_cc).wf(),
        token_entry(*tk).0 == transl_entry(*t).0,
        tk.ck.sck == t.ck.sck,
    ensures
        final(res_cc).wf(),
        ({
            let tokens = map![transl_entry(*t).0 => token_entry(*tk).1];
            (final(res_cc).cc_view(), final(res_cc).dc_view(), payload_seq(final(res_pl)@).to_set()) == rebuild_step(
                (old(res_cc).cc_view(), old(res_cc).dc_view(), payload_seq(old(res_pl)@).to_set()),
                tokens,
                transl_entry(*t).0,
                transl_entry(*t).1,
            )
        }),
{
    let ghost k = transl_entry(*t).0;
    let ghost v = transl_entry(*t).1;
    let range: i128 = tk.n_final as i128 - tk.n_initial as i128;
    if t.final_src >= 0 {
        res_cc.raise_cc(&Dot { id: t.src.copy_id(), n: t.final_src });
    }
    let ghost dc0 = res_cc.dc_view();
    let ghost cc1 = res_cc.cc_view();
    let mut lo: i128 = t.final_dst as i128 - range + 1;
    if lo < 1 {
        lo = 1;
    }
    let ghost low = lo as int;
    assert(low == rebuilt_low(v, range as int));
    let mut m: i128 = lo;
    proof {
        assert(dc0 + dot_range(t.dst@, low, m as int) =~= dc0);
    }
    while m <= t.final_dst as i128
        invariant
            res_cc.wf(),
            low <= m,
            low >= 1,
            m <= t.final_dst as i128 + 1 || m == low,
            res_cc.dc_view() == dc0 + dot_range(t.dst@, low, m as int),
            res_cc.cc_view() == cc1,
            res_pl@ == old(res_pl)@,
        decreases t.final_dst as i128 + 1 - m,
    {
        let ghost before = res_cc.cc_view();
        res_cc.insert_dc(&Dot { id: t.dst.copy_id(), n: m as i64 });
        proof {
            assert(dc0 + dot_range(t.dst@, low, m as int) + set![(t.dst@, m as i64)] =~= dc0 + dot_range(t.dst@, low, m as int + 1));
            assert(res_cc.dc_view() =~= dc0 + dot_range(t.dst@, low, m as int) + set![(t.dst@, m as i64)]);
        }
        m = m + 1;
    }
    proof {
        if low > t.final_dst as int {
            assert(dot_range(t.dst@, low, m as int) =~= dot_range(t.dst@, low, t.final_dst as int + 1));
        } else {
            assert(m == t.final_dst as int + 1);
        }
    }
    let ghost dc1 = res_cc.dc_view();
    assert(dc1 == dc0 + dot_range(t.dst@, low, t.final_dst as int + 1));
    let shift: i128 = t.final_dst as i128 - t.final_src as i128;
    let ghost es = payload_views(tk.elems@);
    let ghost start_pl = payload_seq(res_pl@).to_set();
    let mut i: usize = 0;
    proof {
        lemma_to_set_empty(es.subrange(0, 0));
        assert(start_pl + shifted(es.subrange(0, 0).to_set(), t.dst@, shift as int) =~= start_pl);
    }
    while i < tk.elems.len()
        invariant
            i <= tk.elems@.len(),
            es == payload_views(tk.elems@),
            shift == t.final_dst - t.final_src,
            res_cc.wf(),
            res_cc.cc_view() == cc1,
            res_cc.dc_view() == dc1,
            payload_seq(res_pl@).to_set() == start_pl + shifted(es.subrange(0, i as int).to_set(), t.dst@, shift as int),
        decreases tk.elems@.len() - i,
    {
        proof {
            lemma_to_set_prefix(es, i as int);
        }
        let e = &tk.elems[i];
        let nn: i128 = shift + e.n as i128;
        let ghost pre = es.subrange(0, i as int).to_set();
        let ghost q = es[i as int];
        assert(q == (e.n, e.elem@));
        if i64::MIN as i128 <= nn && nn <= i64::MAX as i128 {
            let entry = (t.dst.copy_id(), Payload { n: nn as i64, elem: e.elem.duplicate() });
            let ghost tv = (t.dst@, nn as i64, e.elem@);
            proof {
                assert(payload_seq(res_pl@.push(entry)) =~= payload_seq(res_pl@).push(tv));
                lemma_to_set_push(payload_seq(res_pl@), tv);
                assert forall|x: TaggedV<E::V>| #[trigger] shifted(pre.insert(q), t.dst@, shift as int).contains(x)
                    == shifted(pre, t.dst@, shift as int).insert(tv).contains(x) by {
                    if shifted(pre.insert(q), t.dst@, shift as int).contains(x) {
                        let p = choose|p: (i64, E::V)| #[trigger] pre.insert(q).contains(p) && x.1 == shift + p.0 && x.2 == p.1;
                        if p != q {
                            assert(pre.contains(p));
                        }
                    }
                    if x == tv {
                        assert(pre.insert(q).contains(q));
                    }
                    if shifted(pre, t.dst@, shift as int).contains(x) {
                        let p = choose|p: (i64, E::V)| #[trigger] pre.contains(p) && x.1 == shift + p.0 && x.2 == p.1;
                        assert(pre.insert(q).contains(p));
                    }
                }
                assert(shifted(pre.insert(q), t.dst@, shift as int) =~= shifted(pre, t.dst@, shift as int).insert(tv));
            }
            res_pl.push(entry);
            proof {
                assert(payload_seq(res_pl@).to_set() =~= start_pl + shifted(es.subrange(0, i as int + 1).to_set(), t.dst@, shift as int));
            }
        } else {
            proof {
                assert forall|x: TaggedV<E::V>| #[trigger] shifted(pre.insert(q), t.dst@, shift as int).contains(x)
                    == shifted(pre, t.dst@, shift as int).contains(x) by {
                    if shifted(pre.insert(q), t.dst@, shift as int).contains(x) {
                        let p = choose|p: (i64, E::V)| #[trigger] pre.insert(q).contains(p) && x.1 == shift + p.0 && x.2 == p.1;
                        if p == q {
                            assert(x.1 == nn);
                        }
                        assert(pre.contains(p));
                    }
                    if shifted(pre, t.dst@, shift as int).contains(x) {
                        let p = choose|p: (i64, E::V)| #[trigger] pre.contains(p) && x.1 == shift + p.0 && x.2 == p.1;
                        assert(pre.insert(q).contains(p));
                    }
                }
                assert(shifted(pre.insert(q), t.dst@, shift as int) =~= shifted(pre, t.dst@, shift as int));
                assert(payload_seq(res_pl@).to_set() =~= start_pl + shifted(es.subrange(0, i as int + 1).to_set(), t.dst@, shift as int));
            }
        }
        i = i + 1;
    }
    proof {
        assert(es.subrange(0, es.len() as int) =~= es);
        let tokens = map![k => token_entry(*tk).1];
        assert(tokens.contains_key(k));
        assert(tokens[k] == token_entry(*tk).1);
        assert(start_pl == payload_seq(old(res_pl)@).to_set());
        assert(es.to_set() == token_entry(*tk).1.2);
    }
}

/// A copy of a token, with the same view.
fn copy_token<E: Element>(t: &Token<E>) -> (r: Token<E>)
    ensures
        token_entry(r) == token_entry(*t),
{
    let ghost s0 = payload_views(t.elems@);
    let mut elems: Vec<Payload<E>> = Vec::new();
    let mut i: usize = 0;
    while i < t.elems.len()
        invariant
            i <= t.elems@.len(),
            s0 == payload_views(t.elems@),
            payload_views(elems@) == s0.subrange(0, i as int),
        decreases t.elems@.len() - i,
    {
        let c = t.elems[i].copy_payload();
        proof {
            assert(c@ == s0[i as int]);
            assert(payload_views(elems@.push(c)) =~= payload_views(elems@).push(c@));
            assert(s0.subrange(0, i as int + 1) =~= s0.subrange(0, i as int).push(s0[i as int]));
            assert(payload_views(elems@.push(c)) =~= s0.subrange(0, i as int + 1));
        }
        elems.push(c);
        i = i + 1;
    }
    proof {
        assert(s0.subrange(0, s0.len() as int) =~= s0);
    }
    Token {
        src: t.src.copy_id(),
        dst: t.dst.copy_id(),
        ck: t.ck,
        n_initial: t.n_initial,
        n_final: t.n_final,
        elems,
    }
}

/// A copy of a translation, with the same view.
fn copy_transl(t: &Transl) -> (r: Transl)
    ensures
        transl_entry(r) == transl_entry(*t),
{
    Transl {
        src: t.src.copy_id(),
        dst: t.dst.copy_id(),
        ck: t.ck,
        final_src: t.final_src,
        final_dst: t.final_dst,
    }
}

/// The payloads of `elems` that do not hold `elem`.
fn filter_elems<E: Element>(elems: &Vec<Payload<E>>, elem: &E) -> (r: Vec<Payload<E>>)
    ensures
        elems_view(r@) == strip(elems_view(elems@), elem@),
{
    let ghost s0 = payload_views(elems@);
    let mut kept: Vec<Payload<E>> = Vec::new();
    let mut i: usize = 0;
    proof {
        lemma_to_set_empty(payload_views(kept@));
        lemma_to_set_empty(s0.subrange(0, 0));
        assert(strip(Set::<(i64, E::V)>::empty(), elem@) =~= Set::<(i64, E::V)>::empty());
    }
    while i < elems.len()
        invariant
            i <= elems@.len(),
            s0 == payload_views(elems@),
            elems_view(kept@) == strip(s0.subrange(0, i as int).to_set(), elem@),
        decreases elems@.len() - i,
    {
        proof {
            lemma_to_set_prefix(s0, i as int);
        }
        let ghost before = s0.subrange(0, i as int).to_set();
        if !elems[i].elem.same(elem) {
            let c = elems[i].copy_payload();
            proof {
                assert(payload_views(kept@.push(c)) =~= payload_views(kept@).push(s0[i as int]));
                lemma_to_set_push(payload_views(kept@), s0[i as int]);
                assert(strip(before.insert(s0[i as int]), elem@) =~= strip(before, elem@).insert(s0[i as int]));
            }
            kept.push(c);
        } else {
            proof {
                assert(strip(before.insert(s0[i as int]), elem@) =~= strip(before, elem@));
            }
        }
        i = i + 1;
    }
    proof {
        assert(s0.subrange(0, s0.len() as int) =~= s0);
    }
    kept
}

} // verus!
