//! Causal context: a compact per-origin counter map plus a cloud of dots that
//! are not yet contiguous.
use vstd::prelude::*;

use crate::keyed::{lemma_sum_full, lemma_sum_nonneg, lemma_sum_prefix, sum_of};
use crate::types::{Dot, DotV, IdV, NodeId, I64_BYTES};

verus! {

/// The map that a sequence of dots, read as `(origin, counter)` entries, denotes.
pub open spec fn cc_map_of(s: Seq<Dot>) -> Map<IdV, i64> {
    Map::new(
        |k: IdV| exists|i: int| 0 <= i < s.len() && s[i].id@ == k,
        |k: IdV| s[choose|i: int| 0 <= i < s.len() && s[i].id@ == k].n,
    )
}

/// The set of dots that a sequence holds.
pub open spec fn dot_set_of(s: Seq<Dot>) -> Set<DotV> {
    Set::new(|d: DotV| exists|i: int| 0 <= i < s.len() && s[i]@ == d)
}

/// No origin occurs twice.
pub open spec fn unique_ids(s: Seq<Dot>) -> bool {
    forall|i: int, j: int| 0 <= i < j < s.len() ==> s[i].id@ != s[j].id@
}

/// Whether the context `(cc, dc)` has seen dot `d`.
pub open spec fn knows(cc: Map<IdV, i64>, dc: Set<DotV>, d: DotV) -> bool {
    (cc.contains_key(d.0) && d.1 <= cc[d.0]) || dc.contains(d)
}

/// A cloud dot that compaction cannot fold or drop.
pub open spec fn stuck(cc: Map<IdV, i64>, d: DotV) -> bool {
    if cc.contains_key(d.0) {
        d.1 > cc[d.0] + 1
    } else {
        d.1 != 1
    }
}

/// The compaction fixpoint: every cloud dot is stuck.
pub open spec fn is_compact(cc: Map<IdV, i64>, dc: Set<DotV>) -> bool {
    forall|d: DotV| dc.contains(d) ==> #[trigger] stuck(cc, d)
}

/// `(cc, dc)` is the compaction of `(cc0, dc0)`: it knows the same positive
/// dots, is at the fixpoint, and has a counter for exactly the old origins and
/// those whose first dot was in the cloud.
pub open spec fn compaction_of(
    cc0: Map<IdV, i64>,
    dc0: Set<DotV>,
    cc: Map<IdV, i64>,
    dc: Set<DotV>,
) -> bool {
    &&& is_compact(cc, dc)
    &&& forall|d: DotV| d.1 >= 1 ==> (#[trigger] knows(cc, dc, d) == knows(cc0, dc0, d))
    &&& forall|k: IdV| #[trigger]
        cc.contains_key(k) == (cc0.contains_key(k) || dc0.contains((k, 1)))
}

/// Pointwise maximum of two counter maps.
pub open spec fn cc_max(a: Map<IdV, i64>, b: Map<IdV, i64>) -> Map<IdV, i64> {
    Map::new(
        |k: IdV| a.contains_key(k) || b.contains_key(k),
        |k: IdV|
            if a.contains_key(k) && b.contains_key(k) {
                if a[k] >= b[k] {
                    a[k]
                } else {
                    b[k]
                }
            } else if a.contains_key(k) {
                a[k]
            } else {
                b[k]
            },
    )
}

/// Bytes of a cloud dot.
pub open spec fn dot_bytes() -> spec_fn(Dot) -> int {
    |d: Dot| d.num_bytes()
}

/// Bytes of a compact-context entry: its origin and its counter.
pub open spec fn cc_entry_bytes() -> spec_fn(Dot) -> int {
    |d: Dot| d.id.num_bytes() + I64_BYTES
}

/// Per-replica causal summary.
#[derive(Clone, Debug, PartialEq, Eq)]
pub struct DotContext {
    /// Compact context: for each origin, the counter up to which every update is known.
    pub cc: Vec<Dot>,
    /// Dot cloud: known dots beyond the contiguous prefix.
    pub dc: Vec<Dot>,
}

impl DotContext {
    pub open spec fn cc_view(&self) -> Map<IdV, i64> {
        cc_map_of(self.cc@)
    }

    pub open spec fn dc_view(&self) -> Set<DotV> {
        dot_set_of(self.dc@)
    }

    /// Each origin has one counter, counters are not negative and cloud dots are positive.
    pub open spec fn wf(&self) -> bool {
        &&& unique_ids(self.cc@)
        &&& forall|i: int| 0 <= i < self.cc@.len() ==> self.cc@[i].n >= 0
        &&& forall|i: int| 0 <= i < self.dc@.len() ==> self.dc@[i].n >= 1
    }

    pub open spec fn knows_dot(&self, d: DotV) -> bool {
        knows(self.cc_view(), self.dc_view(), d)
    }

    /// The counter of `k`, 0 when `k` has none.
    pub open spec fn counter(&self, k: IdV) -> i64 {
        if self.cc_view().contains_key(k) {
            self.cc_view()[k]
        } else {
            0
        }
    }

    pub open spec fn is_compacted(&self) -> bool {
        is_compact(self.cc_view(), self.dc_view())
    }

    pub fn new() -> (r: DotContext)
        ensures
            r.wf(),
            r.cc_view() == Map::<IdV, i64>::empty(),
            r.dc_view() == Set::<DotV>::empty(),
    {
        let r = DotContext { cc: Vec::new(), dc: Vec::new() };
        assert(r.cc_view() =~= Map::<IdV, i64>::empty());
        assert(r.dc_view() =~= Set::<DotV>::empty());
        r
    }

    /// Folds cloud dots into the compact context until the fixpoint is reached:
    /// a dot right after its origin's counter advances the counter, a dot at or
    /// below it is dropped, and the first dot of an origin without a counter
    /// starts one at 1.
    pub fn compact(&mut self)
        requires
            old(self).wf(),
        ensures
            final(self).wf(),
            compaction_of(
                old(self).cc_view(),
                old(self).dc_view(),
                final(self).cc_view(),
                final(self).dc_view(),
            ),
    {
        let ghost cc0 = self.cc_view();
        let ghost dc0 = self.dc_view();
        let mut repeat = true;
        while repeat
            invariant
                self.wf(),
                forall|d: DotV| d.1 >= 1 ==> (#[trigger] knows(self.cc_view(), self.dc_view(), d) == knows(cc0, dc0, d)),
                forall|k: IdV| #[trigger] self.cc_view().contains_key(k) ==> (cc0.contains_key(k) || dc0.contains((k, 1))),
                forall|k: IdV| cc0.contains_key(k) ==> #[trigger] self.cc_view().contains_key(k),
                !repeat ==> is_compact(self.cc_view(), self.dc_view()),
            decreases self.dc@.len() + if repeat { 1int } else { 0int },
        {
            repeat = false;
            let ghost start_cc = self.cc_view();
            let ghost dc_start = self.dc@;
            let mut kept: Vec<Dot> = Vec::new();
            let mut i: usize = 0;
            proof {
                lemma_dot_set_full(self.dc@);
                assert(kept@ =~= Seq::<Dot>::empty());
                assert(dot_set_of(kept@) + dot_set_of(self.dc@.subrange(i as int, self.dc@.len() as int)) == self.dc_view());
            }
            while i < self.dc.len()
                invariant
                    self.wf(),
                    self.dc@ == dc_start,
                    i <= self.dc@.len(),
                    forall|j: int| 0 <= j < kept@.len() ==> kept@[j].n >= 1,
                    repeat ==> kept@.len() + 1 <= i,
                    kept@.len() <= i,
                    forall|d: DotV| d.1 >= 1 ==> (#[trigger] knows(
                        self.cc_view(),
                        dot_set_of(kept@) + dot_set_of(self.dc@.subrange(i as int, self.dc@.len() as int)),
                        d,
                    ) == knows(cc0, dc0, d)),
                    forall|k: IdV| #[trigger] self.cc_view().contains_key(k) ==> (cc0.contains_key(k) || dc0.contains((k, 1))),
                    forall|k: IdV| cc0.contains_key(k) ==> #[trigger] self.cc_view().contains_key(k),
                    !repeat ==> self.cc_view() == start_cc,
                    !repeat ==> is_compact(self.cc_view(), dot_set_of(kept@)),
                decreases self.dc@.len() - i,
            {
                let ghost cc_before = self.cc_view();
                let ghost rest = dot_set_of(self.dc@.subrange(i as int + 1, self.dc@.len() as int));
                let ghost kset = dot_set_of(kept@);
                proof {
                    lemma_dot_set_rest(self.dc@, i as int);
                }
                let n = self.dc[i].n;
                let ghost d = self.dc@[i as int]@;
                assert(knows(cc_before, kset + rest.insert(d), d));
                match self.find_cc(&self.dc[i].id) {
                    Some(j) => {
                        let c = self.cc[j].n;
                        if c == n - 1 {
                            let nd = Dot { id: self.cc[j].id.copy_id(), n };
                            proof {
                                lemma_cc_set(self.cc@, j as int, nd);
                            }
                            self.cc.set(j, nd);
                            repeat = true;
                            assert forall|x: DotV| x.1 >= 1 implies (#[trigger] knows(self.cc_view(), kset + rest, x)
                                == knows(cc_before, kset + rest.insert(d), x)) by {}
                        } else if c >= n {
                            assert forall|x: DotV| x.1 >= 1 implies (#[trigger] knows(self.cc_view(), kset + rest, x)
                                == knows(cc_before, kset + rest.insert(d), x)) by {}
                        } else {
                            let nd = self.dc[i].copy_dot();
                            proof {
                                lemma_dot_set_push(kept@, nd);
                            }
                            kept.push(nd);
                            assert forall|x: DotV| x.1 >= 1 implies (#[trigger] knows(self.cc_view(), dot_set_of(kept@) + rest, x)
                                == knows(cc_before, kset + rest.insert(d), x)) by {}
                        }
                    },
                    None => {
                        if n == 1 {
                            let nd = self.dc[i].copy_dot();
                            proof {
                                lemma_cc_push(self.cc@, nd);
                            }
                            self.cc.push(nd);
                            repeat = true;
                            assert forall|x: DotV| x.1 >= 1 implies (#[trigger] knows(self.cc_view(), kset + rest, x)
                                == knows(cc_before, kset + rest.insert(d), x)) by {}
                            assert forall|k: IdV| #[trigger] self.cc_view().contains_key(k) implies (cc0.contains_key(k) || dc0.contains((k, 1))) by {
                                if k == d.0 {
                                    assert(knows(cc0, dc0, d));
                                }
                            }
                        } else {
                            let nd = self.dc[i].copy_dot();
                            proof {
                                lemma_dot_set_push(kept@, nd);
                            }
                            kept.push(nd);
                            assert forall|x: DotV| x.1 >= 1 implies (#[trigger] knows(self.cc_view(), dot_set_of(kept@) + rest, x)
                                == knows(cc_before, kset + rest.insert(d), x)) by {}
                        }
                    },
                }
                i = i + 1;
            }
            proof {
                lemma_dot_set_empty_rest(self.dc@);
                assert(dot_set_of(kept@) + dot_set_of(self.dc@.subrange(self.dc@.len() as int, self.dc@.len() as int)) =~= dot_set_of(kept@));
            }
            let ghost kept_view = dot_set_of(kept@);
            let ghost cc_after = self.cc_view();
            assert forall|d: DotV| d.1 >= 1 implies (#[trigger] knows(cc_after, kept_view, d) == knows(cc0, dc0, d)) by {
                assert(knows(
                    cc_after,
                    dot_set_of(kept@) + dot_set_of(self.dc@.subrange(i as int, self.dc@.len() as int)),
                    d,
                ) == knows(cc0, dc0, d));
            }
            self.dc = kept;
            assert(self.dc_view() == kept_view);
            assert(self.cc_view() == cc_after);
        }
        proof {
            assert forall|k: IdV| #[trigger] self.cc_view().contains_key(k) == (cc0.contains_key(k) || dc0.contains((k, 1))) by {
                if dc0.contains((k, 1)) {
                    assert(knows(cc0, dc0, (k, 1)));
                    assert(knows(self.cc_view(), self.dc_view(), (k, 1)));
                    if self.dc_view().contains((k, 1)) {
                        assert(stuck(self.cc_view(), (k, 1)));
                    }
                }
            }
        }
    }

    /// Adds `dot` to the cloud, without compacting.
    pub fn insert_dc(&mut self, dot: &Dot)
        requires
            old(self).wf(),
            dot.n >= 1,
        ensures
            final(self).wf(),
            final(self).cc_view() == old(self).cc_view(),
            final(self).dc_view() == old(self).dc_view().insert(dot@),
    {
        let c = dot.copy_dot();
        proof {
            lemma_dot_set_push(self.dc@, c);
        }
        self.dc.push(c);
    }

    /// Adds `dot` to the cloud, then compacts unless `compact` is `Some(false)`.
    pub fn insert_dot(&mut self, dot: &Dot, compact: Option<bool>)
        requires
            old(self).wf(),
            dot.n >= 1,
        ensures
            final(self).wf(),
            compact == Some(false) ==> final(self).cc_view() == old(self).cc_view()
                && final(self).dc_view() == old(self).dc_view().insert(dot@),
            compact != Some(false) ==> compaction_of(
                old(self).cc_view(),
                old(self).dc_view().insert(dot@),
                final(self).cc_view(),
                final(self).dc_view(),
            ),
    {
        self.insert_dc(dot);
        match compact {
            Some(false) => {},
            _ => self.compact(),
        }
    }

    /// Generates the next dot of `id`: its counter goes up by one (starting at
    /// 1 when it has none) and the dot carries the new value.
    pub fn makedot(&mut self, id: &NodeId) -> (r: Dot)
        requires
            old(self).wf(),
            old(self).counter(id@) < i64::MAX,
        ensures
            final(self).wf(),
            r@ == (id@, (old(self).counter(id@) + 1) as i64),
            final(self).cc_view() == old(self).cc_view().insert(id@, (old(self).counter(id@) + 1) as i64),
            final(self).dc_view() == old(self).dc_view(),
    {
        let n = self.get_cc(id) + 1;
        let d = Dot { id: id.copy_id(), n };
        self.insert_cc(&d);
        d
    }

    /// Joins `other` into `self`: counters by pointwise maximum, clouds by
    /// union, then compaction.
    pub fn join(&mut self, other: &DotContext)
        requires
            old(self).wf(),
            other.wf(),
        ensures
            final(self).wf(),
            compaction_of(
                cc_max(old(self).cc_view(), other.cc_view()),
                old(self).dc_view() + other.dc_view(),
                final(self).cc_view(),
                final(self).dc_view(),
            ),
            forall|d: DotV| d.1 >= 1 ==> (#[trigger] final(self).knows_dot(d) == (old(self).knows_dot(d) || other.knows_dot(d))),
    {
        let ghost cc0 = self.cc_view();
        let ghost dc0 = self.dc_view();
        let mut j: usize = 0;
        proof {
            assert(cc_map_of(other.cc@.subrange(0, 0)) =~= Map::<IdV, i64>::empty());
            assert(cc_max(cc0, Map::<IdV, i64>::empty()) =~= cc0);
        }
        while j < other.cc.len()
            invariant
                self.wf(),
                other.wf(),
                j <= other.cc@.len(),
                self.dc_view() == dc0,
                self.cc_view() == cc_max(cc0, cc_map_of(other.cc@.subrange(0, j as int))),
            decreases other.cc@.len() - j,
        {
            let ghost before = self.cc_view();
            proof {
                lemma_cc_prefix(other.cc@, j as int);
            }
            let on = other.cc[j].n;
            match self.find_cc(&other.cc[j].id) {
                Some(i) => {
                    if self.cc[i].n < on {
                        let nd = other.cc[j].copy_dot();
                        proof {
                            lemma_cc_set(self.cc@, i as int, nd);
                        }
                        self.cc.set(i, nd);
                    }
                },
                None => {
                    let nd = other.cc[j].copy_dot();
                    proof {
                        lemma_cc_push(self.cc@, nd);
                    }
                    self.cc.push(nd);
                },
            }
            proof {
                let k = other.cc@[j as int].id@;
                let pj = cc_map_of(other.cc@.subrange(0, j as int));
                assert(self.cc_view() =~= cc_max(cc0, pj.insert(k, on)));
            }
            j = j + 1;
        }
        proof {
            assert(other.cc@.subrange(0, other.cc@.len() as int) =~= other.cc@);
        }
        let mut j: usize = 0;
        proof {
            assert(dot_set_of(other.dc@.subrange(0, 0)) =~= Set::<DotV>::empty());
            assert(dc0 + Set::<DotV>::empty() =~= dc0);
        }
        while j < other.dc.len()
            invariant
                self.wf(),
                other.wf(),
                j <= other.dc@.len(),
                self.cc_view() == cc_max(cc0, other.cc_view()),
                self.dc_view() == dc0 + dot_set_of(other.dc@.subrange(0, j as int)),
            decreases other.dc@.len() - j,
        {
            proof {
                lemma_dot_set_prefix(other.dc@, j as int);
            }
            let nd = other.dc[j].copy_dot();
            proof {
                lemma_dot_set_push(self.dc@, nd);
            }
            self.dc.push(nd);
            proof {
                assert(self.dc_view() =~= dc0 + dot_set_of(other.dc@.subrange(0, j as int + 1)));
            }
            j = j + 1;
        }
        proof {
            assert(other.dc@.subrange(0, other.dc@.len() as int) =~= other.dc@);
        }
        self.compact();
    }

    /// Whether `d` was already seen.
    pub fn dot_in(&self, d: &Dot) -> (r: bool)
        requires
            self.wf(),
        ensures
            r == self.knows_dot(d@),
    {
        if let Some(i) = self.find_cc(&d.id) {
            if self.cc[i].n >= d.n {
                return true;
            }
        }
        let mut i: usize = 0;
        while i < self.dc.len()
            invariant
                i <= self.dc@.len(),
                forall|j: int| 0 <= j < i ==> self.dc@[j]@ != d@,
            decreases self.dc@.len() - i,
        {
            if self.dc[i].n == d.n && self.dc[i].id.same_id(&d.id) {
                assert(self.dc@[i as int]@ == d@);
                return true;
            }
            i = i + 1;
        }
        false
    }

    /// Whether anything about `id` is recorded: a counter or a cloud dot.
    pub fn id_in(&self, id: &NodeId) -> (r: bool)
        requires
            self.wf(),
        ensures
            r == (self.cc_view().contains_key(id@) || exists|d: DotV| #[trigger] self.dc_view().contains(d) && d.0 == id@),
    {
        if self.find_cc(id).is_some() {
            return true;
        }
        let mut i: usize = 0;
        while i < self.dc.len()
            invariant
                i <= self.dc@.len(),
                forall|j: int| 0 <= j < i ==> self.dc@[j].id@ != id@,
            decreases self.dc@.len() - i,
        {
            if self.dc[i].id.same_id(id) {
                assert(self.dc_view().contains(self.dc@[i as int]@));
                return true;
            }
            i = i + 1;
        }
        false
    }

    /// Forgets the whole history of `id`: its counter and its cloud dots.
    pub fn clean_id(&mut self, id: &NodeId)
        requires
            old(self).wf(),
        ensures
            final(self).wf(),
            final(self).cc_view() == old(self).cc_view().remove(id@),
            final(self).dc_view() == old(self).dc_view().filter(|d: DotV| d.0 != id@),
    {
        let ghost cc0 = self.cc@;
        let ghost dc0 = self.dc@;
        let mut cc: Vec<Dot> = Vec::new();
        let mut i: usize = 0;
        proof {
            assert(cc_map_of(cc0.subrange(0, 0)) =~= Map::<IdV, i64>::empty());
            assert(cc_map_of(cc@) =~= Map::<IdV, i64>::empty());
            assert(Map::<IdV, i64>::empty().remove(id@) =~= Map::<IdV, i64>::empty());
        }
        while i < self.cc.len()
            invariant
                self.wf(),
                self.cc@ == cc0,
                i <= cc0.len(),
                unique_ids(cc@),
                forall|j: int| 0 <= j < cc@.len() ==> cc@[j].n >= 0,
                cc_map_of(cc@) == cc_map_of(cc0.subrange(0, i as int)).remove(id@),
            decreases cc0.len() - i,
        {
            proof {
                lemma_cc_prefix(cc0, i as int);
            }
            let ghost p = cc_map_of(cc0.subrange(0, i as int));
            if !self.cc[i].id.same_id(id) {
                let nd = self.cc[i].copy_dot();
                proof {
                    assert(!p.contains_key(nd.id@));
                    lemma_cc_push(cc@, nd);
                    assert(cc_map_of(cc@.push(nd)) =~= p.insert(nd.id@, nd.n).remove(id@));
                }
                cc.push(nd);
            } else {
                proof {
                    assert(p.remove(id@) =~= p.insert(id@, cc0[i as int].n).remove(id@));
                }
            }
            i = i + 1;
        }
        proof {
            assert(cc0.subrange(0, cc0.len() as int) =~= cc0);
        }
        let mut dc: Vec<Dot> = Vec::new();
        let mut i: usize = 0;
        proof {
            assert(dot_set_of(dc0.subrange(0, 0)) =~= Set::<DotV>::empty());
            assert(dot_set_of(dc@) =~= Set::<DotV>::empty());
            assert(Set::<DotV>::empty().filter(|d: DotV| d.0 != id@) =~= Set::<DotV>::empty());
        }
        while i < self.dc.len()
            invariant
                self.dc@ == dc0,
                i <= dc0.len(),
                forall|j: int| 0 <= j < dc0.len() ==> dc0[j].n >= 1,
                forall|j: int| 0 <= j < dc@.len() ==> dc@[j].n >= 1,
                dot_set_of(dc@) == dot_set_of(dc0.subrange(0, i as int)).filter(|d: DotV| d.0 != id@),
            decreases dc0.len() - i,
        {
            proof {
                lemma_dot_set_prefix(dc0, i as int);
            }
            let ghost p = dot_set_of(dc0.subrange(0, i as int));
            if !self.dc[i].id.same_id(id) {
                let nd = self.dc[i].copy_dot();
                proof {
                    lemma_dot_set_push(dc@, nd);
                    assert(dot_set_of(dc@.push(nd)) =~= p.insert(nd@).filter(|d: DotV| d.0 != id@));
                }
                dc.push(nd);
            } else {
                proof {
                    assert(p.filter(|d: DotV| d.0 != id@) =~= p.insert(dc0[i as int]@).filter(|d: DotV| d.0 != id@));
                }
            }
            i = i + 1;
        }
        proof {
            assert(dc0.subrange(0, dc0.len() as int) =~= dc0);
        }
        self.cc = cc;
        self.dc = dc;
    }

    /// A copy with the same counters and cloud.
    pub fn copy_ctx(&self) -> (r: DotContext)
        requires
            self.wf(),
        ensures
            r.wf(),
            r.cc_view() == self.cc_view(),
            r.dc_view() == self.dc_view(),
    {
        let mut cc: Vec<Dot> = Vec::new();
        let mut i: usize = 0;
        while i < self.cc.len()
            invariant
                i <= self.cc@.len(),
                cc@.len() == i,
                forall|j: int| 0 <= j < i ==> #[trigger] cc@[j]@ == self.cc@[j]@,
            decreases self.cc@.len() - i,
        {
            cc.push(self.cc[i].copy_dot());
            i = i + 1;
        }
        let mut dc: Vec<Dot> = Vec::new();
        let mut i: usize = 0;
        while i < self.dc.len()
            invariant
                i <= self.dc@.len(),
                dc@.len() == i,
                forall|j: int| 0 <= j < i ==> #[trigger] dc@[j]@ == self.dc@[j]@,
            decreases self.dc@.len() - i,
        {
            dc.push(self.dc[i].copy_dot());
            i = i + 1;
        }
        let r = DotContext { cc, dc };
        proof {
            assert forall|a: int, b: int| 0 <= a < b < r.cc@.len() implies r.cc@[a].id@ != r.cc@[b].id@ by {
                assert(r.cc@[a]@ == self.cc@[a]@ && r.cc@[b]@ == self.cc@[b]@);
            }
            assert forall|j: int| 0 <= j < r.cc@.len() implies r.cc@[j].n >= 0 by {
                assert(r.cc@[j]@ == self.cc@[j]@);
            }
            assert forall|j: int| 0 <= j < r.dc@.len() implies r.dc@[j].n >= 1 by {
                assert(r.dc@[j]@ == self.dc@[j]@);
            }
            assert forall|k: IdV| #[trigger] r.cc_view().contains_key(k) == self.cc_view().contains_key(k) by {
                if r.cc_view().contains_key(k) {
                    let j = choose|j: int| 0 <= j < r.cc@.len() && r.cc@[j].id@ == k;
                    assert(r.cc@[j]@ == self.cc@[j]@);
                }
                if self.cc_view().contains_key(k) {
                    let j = choose|j: int| 0 <= j < self.cc@.len() && self.cc@[j].id@ == k;
                    assert(r.cc@[j]@ == self.cc@[j]@);
                }
            }
            assert forall|k: IdV| #[trigger] r.cc_view().contains_key(k) implies r.cc_view()[k] == self.cc_view()[k] by {
                let j = choose|j: int| 0 <= j < r.cc@.len() && r.cc@[j].id@ == k;
                assert(r.cc@[j]@ == self.cc@[j]@);
                lemma_cc_at(r.cc@, j);
                lemma_cc_at(self.cc@, j);
            }
            assert(r.cc_view() =~= self.cc_view());
            assert forall|d: DotV| #[trigger] r.dc_view().contains(d) == self.dc_view().contains(d) by {
                if r.dc_view().contains(d) {
                    let j = choose|j: int| 0 <= j < r.dc@.len() && r.dc@[j]@ == d;
                    assert(r.dc@[j]@ == self.dc@[j]@);
                }
                if self.dc_view().contains(d) {
                    let j = choose|j: int| 0 <= j < self.dc@.len() && self.dc@[j]@ == d;
                    assert(r.dc@[j]@ == self.dc@[j]@);
                }
            }
            assert(r.dc_view() =~= self.dc_view());
        }
        r
    }

    /// Raises the counter of `dot.id` to `dot.n`, creating it when absent.
    pub fn raise_cc(&mut self, dot: &Dot)
        requires
            old(self).wf(),
            dot.n >= 0,
        ensures
            final(self).wf(),
            final(self).cc_view() == old(self).cc_view().insert(
                dot.id@,
                if old(self).cc_view().contains_key(dot.id@) && old(self).cc_view()[dot.id@] >= dot.n {
                    old(self).cc_view()[dot.id@]
                } else {
                    dot.n
                },
            ),
            final(self).dc_view() == old(self).dc_view(),
    {
        match self.find_cc(&dot.id) {
            Some(i) => {
                if self.cc[i].n < dot.n {
                    let c = dot.copy_dot();
                    proof {
                        lemma_cc_set(self.cc@, i as int, c);
                    }
                    self.cc.set(i, c);
                } else {
                    proof {
                        assert(self.cc_view().insert(dot.id@, self.cc_view()[dot.id@]) =~= self.cc_view());
                    }
                }
            },
            None => {
                let c = dot.copy_dot();
                proof {
                    lemma_cc_push(self.cc@, c);
                }
                self.cc.push(c);
            },
        }
    }

    pub open spec fn num_bytes(&self) -> int {
        sum_of(self.dc@, dot_bytes()) + sum_of(self.cc@, cc_entry_bytes())
    }

    /// Bytes of the cloud dots plus, for each compact entry, its origin and
    /// its counter.
    pub fn get_num_bytes(&self) -> (r: usize)
        requires
            self.num_bytes() <= usize::MAX,
        ensures
            r as int == self.num_bytes(),
    {
        let mut total: usize = 0;
        let mut i: usize = 0;
        proof {
            lemma_sum_full(self.dc@, dot_bytes());
            lemma_sum_full(self.cc@, cc_entry_bytes());
            lemma_bytes_nonneg();
            lemma_sum_nonneg(self.cc@, cc_entry_bytes());
        }
        while i < self.dc.len()
            invariant
                i <= self.dc@.len(),
                self.num_bytes() <= usize::MAX,
                sum_of(self.cc@, cc_entry_bytes()) >= 0,
                forall|d: Dot| #[trigger] dot_bytes()(d) >= 0,
                total as int == sum_of(self.dc@.subrange(0, i as int), dot_bytes()),
            decreases self.dc@.len() - i,
        {
            proof {
                lemma_sum_prefix(self.dc@, dot_bytes(), i as int);
            }
            total = total + self.dc[i].get_num_bytes();
            i = i + 1;
        }
        let mut i: usize = 0;
        while i < self.cc.len()
            invariant
                i <= self.cc@.len(),
                self.num_bytes() <= usize::MAX,
                forall|d: Dot| #[trigger] cc_entry_bytes()(d) >= 0,
                total as int == sum_of(self.dc@, dot_bytes()) + sum_of(self.cc@.subrange(0, i as int), cc_entry_bytes()),
            decreases self.cc@.len() - i,
        {
            proof {
                lemma_sum_prefix(self.cc@, cc_entry_bytes(), i as int);
            }
            total = total + self.cc[i].id.get_num_bytes();
            total = total + I64_BYTES;
            i = i + 1;
        }
        total
    }

    /// Position of `id` in the compact context.
    fn find_cc(&self, id: &NodeId) -> (r: Option<usize>)
        requires
            self.wf(),
        ensures
            match r {
                Some(i) => i < self.cc@.len() && self.cc@[i as int].id@ == id@
                    && self.cc_view().contains_key(id@)
                    && self.cc_view()[id@] == self.cc@[i as int].n,
                None => !self.cc_view().contains_key(id@),
            },
    {
        let mut i: usize = 0;
        while i < self.cc.len()
            invariant
                self.wf(),
                i <= self.cc@.len(),
                forall|j: int| 0 <= j < i ==> self.cc@[j].id@ != id@,
            decreases self.cc@.len() - i,
        {
            if self.cc[i].id.same_id(id) {
                proof {
                    lemma_cc_at(self.cc@, i as int);
                }
                return Some(i);
            }
            i = i + 1;
        }
        None
    }

    /// The counter of `id`, or 0 when it has none.
    pub fn get_cc(&self, id: &NodeId) -> (r: i64)
        requires
            self.wf(),
        ensures
            r == self.counter(id@),
    {
        match self.find_cc(id) {
            Some(i) => self.cc[i].n,
            None => 0,
        }
    }

    /// Sets the counter of `dot.id` to `dot.n`.
    pub fn insert_cc(&mut self, dot: &Dot)
        requires
            old(self).wf(),
            dot.n >= 0,
        ensures
            final(self).wf(),
            final(self).cc_view() == old(self).cc_view().insert(dot.id@, dot.n),
            final(self).dc_view() == old(self).dc_view(),
    {
        match self.find_cc(&dot.id) {
            Some(i) => {
                let c = dot.copy_dot();
                proof {
                    lemma_cc_set(self.cc@, i as int, c);
                }
                self.cc.set(i, c);
            },
            None => {
                let c = dot.copy_dot();
                proof {
                    lemma_cc_push(self.cc@, c);
                }
                self.cc.push(c);
            },
        }
    }
}

/// Compaction reaches a fixpoint: compacting an already compacted context
/// changes neither its counters nor its cloud, and no cloud dot lies at or
/// right after its origin's counter.
pub proof fn compact_fixpoint(a: DotContext, b: DotContext, c: DotContext)
    requires
        a.wf(),
        b.wf(),
        c.wf(),
        compaction_of(a.cc_view(), a.dc_view(), b.cc_view(), b.dc_view()),
        compaction_of(b.cc_view(), b.dc_view(), c.cc_view(), c.dc_view()),
    ensures
        c.cc_view() == b.cc_view(),
        c.dc_view() == b.dc_view(),
        forall|d: DotV| #[trigger] b.dc_view().contains(d) ==> !(b.cc_view().contains_key(d.0) && (d.1
            <= b.cc_view()[d.0] || d.1 == b.cc_view()[d.0] + 1)),
{
    let bc = b.cc_view();
    let bd = b.dc_view();
    assert forall|k: IdV| #[trigger] c.cc_view().contains_key(k) == bc.contains_key(k) by {
        if bd.contains((k, 1)) {
            assert(stuck(bc, (k, 1)));
            if bc.contains_key(k) {
                lemma_counter_nonneg(&b, k);
            }
        }
    }
    lemma_compact_unique(b, c);
    assert forall|d: DotV| #[trigger] bd.contains(d) implies !(bc.contains_key(d.0) && (d.1 <= bc[d.0] || d.1
        == bc[d.0] + 1)) by {
        assert(stuck(bc, d));
    }
}

/// Two well-formed compacted contexts with the same origins that know the
/// same positive dots are equal.
pub proof fn lemma_compact_unique(b: DotContext, c: DotContext)
    requires
        b.wf(),
        c.wf(),
        b.is_compacted(),
        c.is_compacted(),
        forall|k: IdV| #[trigger] c.cc_view().contains_key(k) == b.cc_view().contains_key(k),
        forall|d: DotV| d.1 >= 1 ==> (#[trigger] knows(c.cc_view(), c.dc_view(), d) == knows(b.cc_view(), b.dc_view(), d)),
    ensures
        c.cc_view() == b.cc_view(),
        c.dc_view() == b.dc_view(),
{
    let bc = b.cc_view();
    let cc = c.cc_view();
    let bd = b.dc_view();
    let cd = c.dc_view();
    assert forall|k: IdV| #[trigger] cc.contains_key(k) implies cc[k] == bc[k] by {
        lemma_counter_nonneg(&b, k);
        lemma_counter_nonneg(&c, k);
        let x = bc[k];
        let y = cc[k];
        if y > x {
            assert(knows(cc, cd, (k, (x + 1) as i64)));
            assert(knows(bc, bd, (k, (x + 1) as i64)));
            assert(stuck(bc, (k, (x + 1) as i64)));
        }
        if y < x {
            assert(knows(bc, bd, (k, (y + 1) as i64)));
            assert(knows(cc, cd, (k, (y + 1) as i64)));
            assert(stuck(cc, (k, (y + 1) as i64)));
        }
    }
    assert(cc =~= bc);
    assert forall|d: DotV| #[trigger] cd.contains(d) == bd.contains(d) by {
        if bd.contains(d) {
            lemma_cloud_positive(b, d);
            assert(knows(bc, bd, d));
            assert(knows(cc, cd, d));
            assert(stuck(bc, d));
        }
        if cd.contains(d) {
            lemma_cloud_positive(c, d);
            assert(knows(cc, cd, d));
            assert(knows(bc, bd, d));
            assert(stuck(cc, d));
        }
    }
    assert(cd =~= bd);
}

pub proof fn lemma_counter_nonneg(x: &DotContext, k: IdV)
    requires
        x.wf(),
    ensures
        x.counter(k) >= 0,
        x.cc_view().contains_key(k) ==> x.cc_view()[k] >= 0,
{
    if x.cc_view().contains_key(k) {
        let i = choose|i: int| 0 <= i < x.cc@.len() && x.cc@[i].id@ == k;
        lemma_cc_at(x.cc@, i);
    }
}

proof fn lemma_cloud_positive(x: DotContext, d: DotV)
    requires
        x.wf(),
        x.dc_view().contains(d),
    ensures
        d.1 >= 1,
{
    let i = choose|i: int| 0 <= i < x.dc@.len() && x.dc@[i]@ == d;
    assert(x.dc@[i].n >= 1);
}

proof fn lemma_bytes_nonneg()
    ensures
        forall|d: Dot| #[trigger] dot_bytes()(d) >= 0,
        forall|d: Dot| #[trigger] cc_entry_bytes()(d) >= 0,
{
}

proof fn lemma_cc_prefix(s: Seq<Dot>, i: int)
    requires
        unique_ids(s),
        0 <= i < s.len(),
    ensures
        unique_ids(s.subrange(0, i)),
        unique_ids(s.subrange(0, i + 1)),
        !cc_map_of(s.subrange(0, i)).contains_key(s[i].id@),
        cc_map_of(s.subrange(0, i + 1)) == cc_map_of(s.subrange(0, i)).insert(s[i].id@, s[i].n),
{
    let p = s.subrange(0, i);
    assert(s.subrange(0, i + 1) =~= p.push(s[i]));
    assert(unique_ids(p));
    if cc_map_of(p).contains_key(s[i].id@) {
        let j = choose|j: int| 0 <= j < p.len() && p[j].id@ == s[i].id@;
        assert(s[j].id@ == s[i].id@);
    }
    lemma_cc_push(p, s[i]);
}

proof fn lemma_dot_set_prefix(s: Seq<Dot>, i: int)
    requires
        0 <= i < s.len(),
    ensures
        dot_set_of(s.subrange(0, i + 1)) == dot_set_of(s.subrange(0, i)).insert(s[i]@),
{
    assert(s.subrange(0, i + 1) =~= s.subrange(0, i).push(s[i]));
    lemma_dot_set_push(s.subrange(0, i), s[i]);
}

proof fn lemma_dot_set_push(s: Seq<Dot>, d: Dot)
    ensures
        dot_set_of(s.push(d)) == dot_set_of(s).insert(d@),
{
    let t = s.push(d);
    assert forall|x: DotV| #[trigger] dot_set_of(t).contains(x) == dot_set_of(s).insert(d@).contains(x) by {
        if dot_set_of(s).contains(x) {
            let j = choose|j: int| 0 <= j < s.len() && s[j]@ == x;
            assert(t[j]@ == x);
        }
        if x == d@ {
            assert(t[s.len() as int]@ == x);
        }
        if dot_set_of(t).contains(x) {
            let j = choose|j: int| 0 <= j < t.len() && t[j]@ == x;
            if j < s.len() {
                assert(s[j]@ == x);
            }
        }
    }
    assert(dot_set_of(t) =~= dot_set_of(s).insert(d@));
}

proof fn lemma_dot_set_rest(s: Seq<Dot>, i: int)
    requires
        0 <= i < s.len(),
    ensures
        dot_set_of(s.subrange(i, s.len() as int)) == dot_set_of(s.subrange(i + 1, s.len() as int)).insert(s[i]@),
{
    let a = s.subrange(i, s.len() as int);
    let b = s.subrange(i + 1, s.len() as int);
    assert forall|x: DotV| #[trigger] dot_set_of(a).contains(x) == dot_set_of(b).insert(s[i]@).contains(x) by {
        if dot_set_of(a).contains(x) {
            let j = choose|j: int| 0 <= j < a.len() && a[j]@ == x;
            if j > 0 {
                assert(b[j - 1]@ == x);
            }
        }
        if dot_set_of(b).contains(x) {
            let j = choose|j: int| 0 <= j < b.len() && b[j]@ == x;
            assert(a[j + 1]@ == x);
        }
        if x == s[i]@ {
            assert(a[0]@ == x);
        }
    }
    assert(dot_set_of(a) =~= dot_set_of(b).insert(s[i]@));
}

proof fn lemma_dot_set_full(s: Seq<Dot>)
    ensures
        dot_set_of(Seq::<Dot>::empty()) + dot_set_of(s.subrange(0, s.len() as int)) == dot_set_of(s),
{
    assert(s.subrange(0, s.len() as int) =~= s);
    assert(dot_set_of(Seq::<Dot>::empty()) + dot_set_of(s) =~= dot_set_of(s));
}

proof fn lemma_dot_set_empty_rest(s: Seq<Dot>)
    ensures
        dot_set_of(s.subrange(s.len() as int, s.len() as int)) == Set::<DotV>::empty(),
{
    assert(dot_set_of(s.subrange(s.len() as int, s.len() as int)) =~= Set::<DotV>::empty());
}

proof fn lemma_cc_at(s: Seq<Dot>, i: int)
    requires
        unique_ids(s),
        0 <= i < s.len(),
    ensures
        cc_map_of(s).contains_key(s[i].id@),
        cc_map_of(s)[s[i].id@] == s[i].n,
{
    let k = s[i].id@;
    assert(exists|j: int| 0 <= j < s.len() && s[j].id@ == k);
    let j = choose|j: int| 0 <= j < s.len() && s[j].id@ == k;
    assert(j == i);
}

proof fn lemma_cc_set(s: Seq<Dot>, i: int, d: Dot)
    requires
        unique_ids(s),
        0 <= i < s.len(),
        d.id@ == s[i].id@,
    ensures
        unique_ids(s.update(i, d)),
        cc_map_of(s.update(i, d)) == cc_map_of(s).insert(d.id@, d.n),
{
    let t = s.update(i, d);
    assert(unique_ids(t));
    assert forall|k: IdV| #[trigger] cc_map_of(t).contains_key(k) == cc_map_of(s).insert(d.id@, d.n).contains_key(k) by {
        if exists|j: int| 0 <= j < s.len() && s[j].id@ == k {
            let j = choose|j: int| 0 <= j < s.len() && s[j].id@ == k;
            assert(t[j].id@ == k);
        }
        if exists|j: int| 0 <= j < t.len() && t[j].id@ == k {
            let j = choose|j: int| 0 <= j < t.len() && t[j].id@ == k;
            assert(s[j].id@ == k);
        }
    }
    assert forall|k: IdV| #[trigger] cc_map_of(t).contains_key(k) implies cc_map_of(t)[k] == cc_map_of(s).insert(d.id@, d.n)[k] by {
        let j = choose|j: int| 0 <= j < t.len() && t[j].id@ == k;
        lemma_cc_at(t, j);
        if j != i {
            lemma_cc_at(s, j);
        }
    }
    assert(cc_map_of(t) =~= cc_map_of(s).insert(d.id@, d.n));
}

proof fn lemma_cc_push(s: Seq<Dot>, d: Dot)
    requires
        unique_ids(s),
        !cc_map_of(s).contains_key(d.id@),
    ensures
        unique_ids(s.push(d)),
        cc_map_of(s.push(d)) == cc_map_of(s).insert(d.id@, d.n),
{
    let t = s.push(d);
    assert forall|i: int, j: int| 0 <= i < j < t.len() implies t[i].id@ != t[j].id@ by {
        if j == s.len() {
            assert(cc_map_of(s).contains_key(s[i].id@));
        }
    }
    assert forall|k: IdV| #[trigger] cc_map_of(t).contains_key(k) == cc_map_of(s).insert(d.id@, d.n).contains_key(k) by {
        if exists|j: int| 0 <= j < s.len() && s[j].id@ == k {
            let j = choose|j: int| 0 <= j < s.len() && s[j].id@ == k;
            assert(t[j].id@ == k);
        }
        if k == d.id@ {
            assert(t[s.len() as int].id@ == k);
        }
        if exists|j: int| 0 <= j < t.len() && t[j].id@ == k {
            let j = choose|j: int| 0 <= j < t.len() && t[j].id@ == k;
            if j < s.len() {
                assert(s[j].id@ == k);
            }
        }
    }
    assert forall|k: IdV| #[trigger] cc_map_of(t).contains_key(k) implies cc_map_of(t)[k] == cc_map_of(s).insert(d.id@, d.n)[k] by {
        let j = choose|j: int| 0 <= j < t.len() && t[j].id@ == k;
        lemma_cc_at(t, j);
        if j < s.len() {
            lemma_cc_at(s, j);
        }
    }
    assert(cc_map_of(t) =~= cc_map_of(s).insert(d.id@, d.n));
}

} // verus!
