use vstd::prelude::*;

use crate::event::{EventType, ResumeEventHandling, SourceEvent};
use crate::types::SourceId;

verus! {

/// The event kinds that a module observes on one source.
#[derive(Debug)]
pub struct Subscription {
    pub source: SourceId,
    pub types: Vec<EventType>,
}

/// A module as the core holds it: the module object, its priority (lower
/// runs first) and what it subscribes to.
pub struct ModuleDef<M> {
    pub object: M,
    pub priority: u8,
    pub subscriptions: Vec<Subscription>,
}

/// A reactor of events; `A` is the facade through which it acts.
pub trait Module<A> {
    fn handle_event(&mut self, core: &mut A, event: SourceEvent) -> ResumeEventHandling;
}

/// Whether subscriptions `subs` take events of kind `t` from source `src`.
pub open spec fn subscribes(subs: Seq<Subscription>, src: Seq<char>, t: EventType) -> bool {
    exists|k: int| 0 <= k < subs.len() && #[trigger] subs[k].source@ == src && subs[k].types@.contains(t)
}

/// Whether module `i` comes before module `j` in dispatch order: by priority,
/// then by position in the configuration.
pub open spec fn runs_before(prio: Seq<u8>, i: int, j: int) -> bool {
    prio[i] < prio[j] || (prio[i] == prio[j] && i < j)
}

/// `order` lists, each once, exactly the modules that subscribe to kind `t`
/// on source `src`, by ascending priority, ties by position.
pub open spec fn is_dispatch_order<M>(
    order: Seq<usize>,
    ms: Seq<ModuleDef<M>>,
    src: Seq<char>,
    t: EventType,
) -> bool {
    let prio = ms.map_values(|m: ModuleDef<M>| m.priority);
    &&& forall|k: int| 0 <= k < order.len() ==> #[trigger] order[k] < ms.len()
    &&& forall|k: int|
        0 <= k < order.len() ==> subscribes(#[trigger] ms[order[k] as int].subscriptions@, src, t)
    &&& forall|i: usize|
        (i as int) < ms.len() && subscribes(#[trigger] ms[i as int].subscriptions@, src, t) ==> order.contains(i)
    &&& forall|k: int, l: int|
        0 <= k < l < order.len() ==> runs_before(prio, #[trigger] order[k] as int, #[trigger] order[l] as int)
}

/// Whether `subs` takes events of kind `t` from `src`.
pub fn is_subscribed(subs: &Vec<Subscription>, src: &SourceId, t: EventType) -> (r: bool)
    ensures
        r == subscribes(subs@, src@, t),
{
    let mut k: usize = 0;
    while k < subs.len()
        invariant
            k <= subs.len(),
            forall|j: int| 0 <= j < k ==> !(#[trigger] subs@[j].source@ == src@ && subs@[j].types@.contains(t)),
        decreases subs.len() - k,
    {
        if subs[k].source == *src {
            let types = &subs[k].types;
            let mut j: usize = 0;
            while j < types.len()
                invariant
                    k < subs.len(),
                    *types == subs@[k as int].types,
                    subs@[k as int].source@ == src@,
                    j <= types.len(),
                    forall|q: int| 0 <= q < j ==> types@[q] != t,
                decreases types.len() - j,
            {
                if types[j] == t {
                    proof {
                        assert(subs@[k as int].source@ == src@ && subs@[k as int].types@.contains(t)) by {
                            assert(subs@[k as int].types@[j as int] == t);
                        }
                    }
                    return true;
                }
                j = j + 1;
            }
        }
        k = k + 1;
    }
    false
}

/// The modules that subscribe to kind `t` on source `src`, in dispatch order.
pub fn get_subscribers<M>(modules: &Vec<ModuleDef<M>>, src: &SourceId, t: EventType) -> (r: Vec<usize>)
    ensures
        is_dispatch_order(r@, modules@, src@, t),
{
    let ghost prio = modules@.map_values(|m: ModuleDef<M>| m.priority);
    let mut r: Vec<usize> = Vec::new();
    let mut p: u16 = 0;
    while p < 256
        invariant
            p <= 256,
            prio == modules@.map_values(|m: ModuleDef<M>| m.priority),
            forall|k: int| 0 <= k < r.len() ==> #[trigger] r@[k] < modules.len(),
            forall|k: int| 0 <= k < r.len() ==> (#[trigger] prio[r@[k] as int]) < p,
            forall|k: int|
                0 <= k < r.len() ==> subscribes(#[trigger] modules@[r@[k] as int].subscriptions@, src@, t),
            forall|j: usize|
                (j as int) < modules.len() && subscribes(#[trigger] modules@[j as int].subscriptions@, src@, t) && prio[j as int] < p
                    ==> r@.contains(j),
            forall|k: int, l: int|
                0 <= k < l < r.len() ==> runs_before(prio, #[trigger] r@[k] as int, #[trigger] r@[l] as int),
        decreases 256 - p,
    {
        let mut i: usize = 0;
        while i < modules.len()
            invariant
                p < 256,
                i <= modules.len(),
                prio == modules@.map_values(|m: ModuleDef<M>| m.priority),
                forall|k: int| 0 <= k < r.len() ==> #[trigger] r@[k] < modules.len(),
                forall|k: int| 0 <= k < r.len() ==> (#[trigger] prio[r@[k] as int]) <= p,
                forall|k: int|
                    0 <= k < r.len() && (#[trigger] prio[r@[k] as int]) == p ==> r@[k] < i,
                forall|k: int|
                    0 <= k < r.len() ==> subscribes(#[trigger] modules@[r@[k] as int].subscriptions@, src@, t),
                forall|j: usize|
                    (j as int) < modules.len() && subscribes(#[trigger] modules@[j as int].subscriptions@, src@, t) && (prio[j as int] < p
                        || (prio[j as int] == p && j < i)) ==> r@.contains(j),
                forall|k: int, l: int|
                    0 <= k < l < r.len() ==> runs_before(prio, #[trigger] r@[k] as int, #[trigger] r@[l] as int),
            decreases modules.len() - i,
        {
            if modules[i].priority as u16 == p && is_subscribed(&modules[i].subscriptions, src, t) {
                let ghost before = r@;
                r.push(i);
                proof {
                    assert(r@[r.len() - 1] == i);
                    assert forall|j: usize|
                        (j as int) < modules.len() && subscribes(#[trigger] modules@[j as int].subscriptions@, src@, t) && (prio[j as int] < p
                            || (prio[j as int] == p && j < i + 1)) implies r@.contains(j) by {
                        if j == i {
                            assert(r@[r.len() - 1] == j);
                        } else {
                            assert(before.contains(j));
                            let w = choose|w: int| 0 <= w < before.len() && before[w] == j;
                            assert(r@[w] == j);
                        }
                    }
                }
            }
            i = i + 1;
        }
        p = p + 1;
    }
    r
}

/// What a dispatch did: each entry names the module that was called and what
/// it answered.
pub open spec fn is_dispatch_trace(trace: Seq<(usize, ResumeEventHandling)>, order: Seq<usize>) -> bool {
    &&& trace.len() <= order.len()
    &&& forall|k: int| 0 <= k < trace.len() ==> (#[trigger] trace[k]).0 == order[k]
    &&& forall|k: int| 0 <= k < trace.len() - 1 ==> (#[trigger] trace[k]).1 == ResumeEventHandling::Resume
    &&& trace.len() < order.len() ==> trace.len() > 0 && trace.last().1 == ResumeEventHandling::Stop
}

/// Hands `event` to each module in `order` in turn, until one answers `Stop`.
/// Returns who was called and what each answered.
pub fn dispatch<M: Module<A>, A>(
    modules: &mut Vec<ModuleDef<M>>,
    order: &Vec<usize>,
    core: &mut A,
    event: &SourceEvent,
) -> (trace: Vec<(usize, ResumeEventHandling)>)
    requires
        forall|k: int| 0 <= k < order.len() ==> #[trigger] order@[k] < old(modules).len(),
    ensures
        is_dispatch_trace(trace@, order@),
        final(modules).len() == old(modules).len(),
        forall|i: int|
            0 <= i < old(modules).len() ==> (#[trigger] final(modules)@[i]).priority == old(modules)@[i].priority
                && final(modules)@[i].subscriptions == old(modules)@[i].subscriptions,
{
    let mut trace: Vec<(usize, ResumeEventHandling)> = Vec::new();
    let mut k: usize = 0;
    while k < order.len()
        invariant
            k <= order.len(),
            trace.len() == k,
            modules.len() == old(modules).len(),
            forall|q: int| 0 <= q < order.len() ==> #[trigger] order@[q] < modules.len(),
            forall|i: int|
                0 <= i < old(modules).len() ==> (#[trigger] modules@[i]).priority == old(modules)@[i].priority
                    && modules@[i].subscriptions == old(modules)@[i].subscriptions,
            forall|q: int| 0 <= q < trace.len() ==> (#[trigger] trace@[q]).0 == order@[q],
            forall|q: int| 0 <= q < trace.len() ==> (#[trigger] trace@[q]).1 == ResumeEventHandling::Resume,
        decreases order.len() - k,
    {
        let idx = order[k];
        let answer = modules[idx].object.handle_event(core, event.clone());
        trace.push((idx, answer));
        k = k + 1;
        if answer == ResumeEventHandling::Stop {
            return trace;
        }
    }
    trace
}

/// Subscriber order: every module that is called for an event subscribes to
/// its kind on its source, each such module is called once at most, and they
/// are called by ascending priority, ties by position.
pub proof fn lemma_dispatch_order_sorted<M>(
    order: Seq<usize>,
    ms: Seq<ModuleDef<M>>,
    src: Seq<char>,
    t: EventType,
)
    requires
        is_dispatch_order(order, ms, src, t),
    ensures
        forall|k: int, l: int|
            0 <= k < l < order.len() ==> ms[order[k] as int].priority <= ms[order[l] as int].priority,
        forall|k: int, l: int| 0 <= k < l < order.len() ==> order[k] != order[l],
        forall|i: usize|
            (i as int) < ms.len() ==> (order.contains(i) <==> subscribes(#[trigger] ms[i as int].subscriptions@, src, t)),
{
    let prio = ms.map_values(|m: ModuleDef<M>| m.priority);
    assert forall|k: int, l: int|
        0 <= k < l < order.len() implies ms[order[k] as int].priority <= ms[order[l] as int].priority
        && order[k] != order[l] by {
        assert(runs_before(prio, order[k] as int, order[l] as int));
    }
    assert forall|i: usize| (i as int) < ms.len() implies (order.contains(i) <==> subscribes(
        #[trigger] ms[i as int].subscriptions@,
        src,
        t,
    )) by {
        if order.contains(i) {
            let k = choose|k: int| 0 <= k < order.len() && order[k] == i;
            assert(subscribes(ms[order[k] as int].subscriptions@, src, t));
        }
    }
}

/// Stop ends a dispatch: a module that answers `Stop` is the last one called,
/// so no module after it in the order is called for that event.
pub proof fn lemma_stop_is_last(trace: Seq<(usize, ResumeEventHandling)>, order: Seq<usize>, k: int)
    requires
        is_dispatch_trace(trace, order),
        0 <= k < trace.len(),
        trace[k].1 == ResumeEventHandling::Stop,
    ensures
        k == trace.len() - 1,
        forall|q: int| 0 <= q < trace.len() ==> q <= k && (#[trigger] trace[q]).0 == order[q],
{
}

/// A module subscribed to nothing on a source, either because it has no
/// subscriptions or none for that source, is never in the order of an event
/// from that source.
pub proof fn lemma_unsubscribed_never_called<M>(
    order: Seq<usize>,
    ms: Seq<ModuleDef<M>>,
    src: Seq<char>,
    t: EventType,
    i: usize,
)
    requires
        is_dispatch_order(order, ms, src, t),
        (i as int) < ms.len(),
        forall|k: int| 0 <= k < ms[i as int].subscriptions.len() ==> #[trigger] ms[i as int].subscriptions@[k].source@ != src,
    ensures
        !order.contains(i),
{
    if order.contains(i) {
        let k = choose|k: int| 0 <= k < order.len() && order[k] == i;
        assert(subscribes(ms[order[k] as int].subscriptions@, src, t));
    }
}

} // verus!
