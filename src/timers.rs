use vstd::prelude::*;

verus! {

/// Pending timers by identifier. Each identifier has at most one pending
/// timer, represented by the guard `G` that keeps it alive; dropping a guard
/// cancels its timer.
pub struct TimerRegistry<G> {
    ids: Vec<String>,
    guards: Vec<G>,
}

impl<G> TimerRegistry<G> {
    /// Identifiers unique, one guard for each.
    pub closed spec fn wf(&self) -> bool {
        &&& self.ids.len() == self.guards.len()
        &&& forall|i: int, j: int|
            0 <= i < j < self.ids.len() ==> (#[trigger] self.ids@[i])@ != (#[trigger] self.ids@[j])@
    }

    /// The pending timers, by identifier.
    pub closed spec fn pending(&self) -> Map<Seq<char>, G> {
        Map::new(
            |k: Seq<char>| exists|i: int| 0 <= i < self.ids.len() && (#[trigger] self.ids@[i])@ == k,
            |k: Seq<char>|
                {
                    let i = choose|i: int| 0 <= i < self.ids.len() && (#[trigger] self.ids@[i])@ == k;
                    self.guards@[i]
                },
        )
    }

    /// A registry with no pending timer.
    pub fn new() -> (r: Self)
        ensures
            r.wf(),
            r.pending() == Map::<Seq<char>, G>::empty(),
    {
        let r = TimerRegistry { ids: Vec::new(), guards: Vec::new() };
        assert(r.pending() =~= Map::<Seq<char>, G>::empty());
        r
    }

    fn position(&self, id: &String) -> (r: Option<usize>)
        requires
            self.wf(),
        ensures
            match r {
                Some(i) => i < self.ids.len() && self.ids@[i as int]@ == id@,
                None => forall|i: int| 0 <= i < self.ids.len() ==> (#[trigger] self.ids@[i])@ != id@,
            },
    {
        let mut i: usize = 0;
        while i < self.ids.len()
            invariant
                i <= self.ids.len(),
                forall|j: int| 0 <= j < i ==> (#[trigger] self.ids@[j])@ != id@,
            decreases self.ids.len() - i,
        {
            if self.ids[i] == *id {
                return Some(i);
            }
            i = i + 1;
        }
        None
    }

    /// Records `guard` as the one pending timer of `id`. The guard that was
    /// pending for `id` before, if any, is handed back so that the caller can
    /// drop it, which cancels it.
    pub fn schedule(&mut self, id: String, guard: G) -> (prev: Option<G>)
        requires
            old(self).wf(),
        ensures
            final(self).wf(),
            final(self).pending() == old(self).pending().insert(id@, guard),
            match prev {
                Some(g) => old(self).pending().contains_key(id@) && g == old(self).pending()[id@],
                None => !old(self).pending().contains_key(id@),
            },
    {
        let ghost old_pending = self.pending();
        match self.position(&id) {
            Some(i) => {
                let ghost old_guards = self.guards@;
                let g = self.guards.remove(i);
                self.guards.insert(i, guard);
                proof {
                    assert(self.guards@ =~= old_guards.update(i as int, guard));
                    assert(old_pending.contains_key(id@));
                    let w = choose|w: int| 0 <= w < self.ids.len() && (#[trigger] self.ids@[w])@ == id@;
                    assert(w == i);
                    assert(g == old_guards[i as int]);
                    assert forall|k: Seq<char>| #[trigger] self.pending().contains_key(k) == old_pending.insert(id@, guard).contains_key(k) by {
                        if old_pending.insert(id@, guard).contains_key(k) && k != id@ {
                            let w = choose|w: int| 0 <= w < self.ids.len() && (#[trigger] self.ids@[w])@ == k;
                            assert(self.ids@[w]@ == k);
                        }
                    }
                    assert forall|k: Seq<char>| #[trigger] self.pending().contains_key(k) implies self.pending()[k] == old_pending.insert(id@, guard)[k] by {
                        let w = choose|w: int| 0 <= w < self.ids.len() && (#[trigger] self.ids@[w])@ == k;
                        if k == id@ {
                            assert(w == i);
                        }
                    }
                    assert(self.pending() =~= old_pending.insert(id@, guard));
                }
                Some(g)
            },
            None => {
                let ghost old_ids = self.ids@;
                let ghost old_guards = self.guards@;
                let ghost idv = id@;
                self.ids.push(id);
                self.guards.push(guard);
                proof {
                    let n = old_ids.len() as int;
                    assert(self.ids@[n]@ == idv);
                    assert forall|k: Seq<char>| #[trigger] self.pending().contains_key(k) == old_pending.insert(idv, guard).contains_key(k) by {
                        if old_pending.insert(idv, guard).contains_key(k) {
                            if k == idv {
                                assert(self.ids@[n]@ == k);
                            } else {
                                let w = choose|w: int| 0 <= w < old_ids.len() && (#[trigger] old_ids[w])@ == k;
                                assert(self.ids@[w]@ == k);
                            }
                        }
                        if self.pending().contains_key(k) && k != idv {
                            let w = choose|w: int| 0 <= w < self.ids.len() && (#[trigger] self.ids@[w])@ == k;
                            assert(w < n);
                            assert(old_ids[w]@ == k);
                        }
                    }
                    assert forall|k: Seq<char>| #[trigger] self.pending().contains_key(k) implies self.pending()[k] == old_pending.insert(idv, guard)[k] by {
                        let w = choose|w: int| 0 <= w < self.ids.len() && (#[trigger] self.ids@[w])@ == k;
                        if k == idv {
                            assert(w == n);
                        } else {
                            assert(w < n);
                            let v = choose|v: int| 0 <= v < old_ids.len() && (#[trigger] old_ids[v])@ == k;
                            assert(v == w);
                        }
                    }
                    assert(self.pending() =~= old_pending.insert(idv, guard));
                }
                None
            },
        }
    }

    /// Whether a timer is pending for `id`.
    pub fn is_pending(&self, id: &String) -> (r: bool)
        requires
            self.wf(),
        ensures
            r == self.pending().contains_key(id@),
    {
        match self.position(id) {
            Some(i) => {
                assert(self.ids@[i as int]@ == id@);
                true
            },
            None => false,
        }
    }
}

/// Rescheduling replaces: after scheduling `first` and then `second` under the
/// same identifier, exactly one timer is pending for it, the second, and the
/// first was handed back to be cancelled.
pub proof fn lemma_reschedule_keeps_latest<G>(m: Map<Seq<char>, G>, id: Seq<char>, first: G, second: G)
    ensures
        m.insert(id, first).insert(id, second).contains_key(id),
        m.insert(id, first).insert(id, second)[id] == second,
        m.insert(id, first).contains_key(id) && m.insert(id, first)[id] == first,
        m.insert(id, first).insert(id, second).dom() == m.insert(id, second).dom(),
{
}

} // verus!
