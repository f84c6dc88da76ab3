//! Root-space damage events of a retained scene, kept as a persistent chain.
//!
//! Root-space damage events are independent of prunable node-state overlays: replaying resolved
//! bounds as local damage would apply enclosing filters twice.
use vstd::prelude::*;
use std::borrow::Cow;
use std::rc::Rc;
use crate::bounds::Bounds;
use crate::retained::RetainedNodeId;

verus! {

/// Longest chain of events one history keeps.
pub const MAX_STEPS: u16 = 256;

/// Root-space output damage of one or more frames, and the backdrops it dirtied.
#[derive(Clone, Debug)]
pub struct ResolvedDamage {
    pub bounds: Vec<Bounds>,
    pub dirty_backdrops: Vec<RetainedNodeId>,
}

impl View for ResolvedDamage {
    type V = (Seq<Bounds>, Seq<RetainedNodeId>);

    open spec fn view(&self) -> (Seq<Bounds>, Seq<RetainedNodeId>) {
        (self.bounds@, self.dirty_backdrops@)
    }
}

impl ResolvedDamage {
    /// Number of rectangles this damage stores.
    pub fn bounds_storage_capacity(&self) -> (n: usize)
        ensures
            n == self.bounds@.len(),
    {
        self.bounds.len()
    }
}

/// One event: the versions it leads from and to, and its damage.
pub type DamageEvent = (u64, u64, (Seq<Bounds>, Seq<RetainedNodeId>));

/// A history as its domain flag, its oldest resolvable version, and its events, newest first.
pub type HistoryView = (bool, u64, Seq<DamageEvent>);

struct DamageStep {
    from: u64,
    to: u64,
    depth: u16,
    damage: ResolvedDamage,
    previous: Option<Rc<DamageStep>>,
}

spec fn chain_events(tail: Option<Rc<DamageStep>>) -> Seq<DamageEvent>
    decreases tail,
{
    match tail {
        None => Seq::empty(),
        Some(step) => seq![(step.from, step.to, step.damage@)] + chain_events(step.previous),
    }
}

spec fn chain_wf(tail: Option<Rc<DamageStep>>) -> bool
    decreases tail,
{
    match tail {
        None => true,
        Some(step) => {
            &&& step.depth as int == chain_events(tail).len()
            &&& chain_wf(step.previous)
        },
    }
}

/// Events are contiguous: each event leads from the version the next older one led to.
pub open spec fn events_linked(events: Seq<DamageEvent>) -> bool {
    forall|i: int| 0 <= i < events.len() - 1 ==> (#[trigger] events[i + 1]).1 == events[i].0
}

pub open spec fn history_wf(h: HistoryView) -> bool {
    &&& !h.0 ==> h.2.len() == 0
    &&& h.2.len() <= MAX_STEPS
    &&& events_linked(h.2)
    &&& h.2.len() > 0 ==> h.1 == h.2.last().0
}

/// The history after recording the step from `from` to `to`.
///
/// Leaving the scoped domain drops all events and remembers the transition; a scoped step
/// without damage restarts the history at `to`; a scoped step with damage extends the chain
/// when it continues the newest event and the chain is shorter than `MAX_STEPS`, and starts a
/// new chain otherwise.
pub open spec fn advance_view(
    h: HistoryView,
    scoped: bool,
    from: u64,
    to: u64,
    damage: Option<(Seq<Bounds>, Seq<RetainedNodeId>)>,
) -> HistoryView {
    if !scoped {
        if h.0 {
            (false, to, Seq::empty())
        } else {
            h
        }
    } else {
        match damage {
            None => (true, to, Seq::empty()),
            Some(d) => {
                let linked = h.2.len() > 0 && h.2[0].1 == from && h.2.len() < MAX_STEPS;
                (
                    true,
                    if linked { h.1 } else { from },
                    seq![(from, to, d)] + if linked { h.2 } else { Seq::empty() },
                )
            },
        }
    }
}

/// Damage of the events from the newest back to the one leading from `from`: their bounds,
/// newest first, and the union of their dirty backdrops; `None` when the chain reaches no event
/// leading from `from` before passing it.
pub open spec fn collect_events(events: Seq<DamageEvent>, from: u64) -> Option<
    (Seq<Bounds>, Set<RetainedNodeId>),
>
    decreases events.len(),
{
    if events.len() == 0 || events[0].0 < from {
        None
    } else if events[0].0 == from {
        Some((events[0].2.0, events[0].2.1.to_set()))
    } else {
        match collect_events(events.drop_first(), from) {
            None => None,
            Some(rest) => Some((events[0].2.0 + rest.0, events[0].2.1.to_set().union(rest.1))),
        }
    }
}

/// The damage between versions `from` and `to`: `Err` where recovery is required, `Ok(None)`
/// outside the scoped domain, otherwise the bounds and the set of dirty backdrops.
pub open spec fn resolve_view(h: HistoryView, from: u64, to: u64) -> Result<
    Option<(Seq<Bounds>, Set<RetainedNodeId>)>,
    (),
> {
    if from < h.1 || from > to {
        Err(())
    } else if !h.0 {
        Ok(None)
    } else if from == to {
        Ok(Some((Seq::empty(), Set::empty())))
    } else if h.2.len() == 0 || h.2[0].1 != to {
        Err(())
    } else {
        match collect_events(h.2, from) {
            None => Err(()),
            Some(r) => Ok(Some(r)),
        }
    }
}

/// The view of an optional damage value.
pub open spec fn damage_view(d: Option<ResolvedDamage>) -> Option<(Seq<Bounds>, Seq<RetainedNodeId>)> {
    match d {
        Some(d) => Some(d@),
        None => None,
    }
}

pub struct DamageHistory {
    scoped: bool,
    floor: u64,
    tail: Option<Rc<DamageStep>>,
}

impl View for DamageHistory {
    type V = HistoryView;

    closed spec fn view(&self) -> HistoryView {
        (self.scoped, self.floor, chain_events(self.tail))
    }
}

impl Default for DamageHistory {
    fn default() -> (h: DamageHistory)
        ensures
            h.wf(),
            h@ == (false, 0u64, Seq::<DamageEvent>::empty()),
    {
        DamageHistory { scoped: false, floor: 0, tail: None }
    }
}

impl DamageHistory {
    pub closed spec fn wf(self) -> bool {
        &&& chain_wf(self.tail)
        &&& history_wf(self@)
    }

    pub fn initial(scoped: bool, version: u64) -> (h: DamageHistory)
        ensures
            h.wf(),
            h@ == (scoped, if scoped { version } else { 0 }, Seq::<DamageEvent>::empty()),
    {
        DamageHistory { scoped, floor: if scoped { version } else { 0 }, tail: None }
    }

    /// Records the step from `from` to `to`.
    pub fn advance(
        &self,
        scoped: bool,
        from: u64,
        to: u64,
        damage: Option<ResolvedDamage>,
    ) -> (next: DamageHistory)
        requires
            self.wf(),
        ensures
            next.wf(),
            next@ == advance_view(self@, scoped, from, to, damage_view(damage)),
    {
        if !scoped {
            // Remember a domain transition after dropping its events. A renderer that has not
            // consumed the old domain must restore its root history.
            return if self.scoped {
                DamageHistory { scoped, floor: to, tail: None }
            } else {
                DamageHistory { scoped: self.scoped, floor: self.floor, tail: None }
            };
        }
        let ghost dv = damage_view(damage);
        let damage = match damage {
            Some(d) => d,
            None => {
                return Self::initial(true, to);
            },
        };
        let previous: Option<Rc<DamageStep>> = match &self.tail {
            Some(step) => {
                if step.to == from && step.depth < MAX_STEPS {
                    Some(step.clone())
                } else {
                    None
                }
            },
            None => None,
        };
        let floor = if previous.is_some() {
            self.floor
        } else {
            from
        };
        let depth: u16 = match &previous {
            Some(step) => step.depth + 1,
            None => 1,
        };
        let next = DamageHistory {
            scoped,
            floor,
            tail: Some(Rc::new(DamageStep { from, to, depth, damage, previous })),
        };
        proof {
            let events = self@.2;
            if previous.is_some() {
                assert(previous == self.tail);
                assert(chain_events(previous) == events);
                assert(chain_wf(previous));
                assert(previous.unwrap().depth == events.len());
            }
            let new_events = chain_events(next.tail);
            assert(new_events == seq![(from, to, dv.unwrap())] + chain_events(previous));
            assert(depth == chain_events(previous).len() + 1);
            assert(depth == new_events.len());
            assert(chain_wf(previous));
            let step = next.tail.unwrap();
            assert(step.previous == previous);
            assert(step.depth == depth);
            assert(step.depth as int == chain_events(next.tail).len());
            assert(chain_wf(next.tail));
            assert(events_linked(new_events)) by {
                assert forall|i: int| 0 <= i < new_events.len() - 1 implies (#[trigger] new_events[i
                    + 1]).1 == new_events[i].0 by {
                    if i > 0 {
                        assert(new_events[i + 1] == events[i]);
                        assert(events[(i - 1) + 1].1 == events[i - 1].0);
                    }
                }
            }
            if previous.is_some() {
                assert(new_events.last() == events.last());
            }
        }
        next
    }

    /// Damage between versions `from` and `to`.
    ///
    /// `Ok(None)` keeps the root-domain diff. `Err` requires recovery before any node shortcut.
    /// A single event is borrowed as recorded, not copied; an empty or merged result is owned,
    /// and its dirty backdrops hold no repeats.
    pub fn resolve(&self, from: u64, to: u64) -> (r: Result<Option<Cow<'_, ResolvedDamage>>, ()>)
        requires
            self.wf(),
        ensures
            match r {
                Err(_) => resolve_view(self@, from, to) is Err,
                Ok(None) => resolve_view(self@, from, to) == Ok::<
                    Option<(Seq<Bounds>, Set<RetainedNodeId>)>,
                    (),
                >(None),
                Ok(Some(d)) => {
                    &&& resolve_view(self@, from, to) == Ok::<
                        Option<(Seq<Bounds>, Set<RetainedNodeId>)>,
                        (),
                    >(Some((d@.0, d@.1.to_set())))
                    &&& if from < to && self@.2[0].0 == from {
                        d is Borrowed && d@ == self@.2[0].2
                    } else {
                        d is Owned && d@.1.no_duplicates()
                    }
                },
            },
    {
        if from < self.floor || from > to {
            return Err(());
        }
        if !self.scoped {
            return Ok(None);
        }
        if from == to {
            let empty = ResolvedDamage { bounds: Vec::new(), dirty_backdrops: Vec::new() };
            proof {
                assert(empty@.1.to_set() =~= Set::<RetainedNodeId>::empty());
            }
            return Ok(Some(Cow::Owned(empty)));
        }
        let tail: &Rc<DamageStep> = match &self.tail {
            Some(step) => {
                if step.to != to {
                    return Err(());
                }
                step
            },
            None => {
                return Err(());
            },
        };
        let ghost events = self@.2;
        proof {
            assert(events[0] == (tail.from, tail.to, tail.damage@));
        }
        if tail.from == from {
            return Ok(Some(Cow::Borrowed(&tail.damage)));
        }
        let mut bounds: Vec<Bounds> = Vec::new();
        let mut dirty: Vec<RetainedNodeId> = Vec::new();
        let mut cursor: Option<Rc<DamageStep>> = Some(tail.clone());
        let mut expected: u64 = to;
        let ghost mut i: int = 0;
        proof {
            assert(events.skip(0) == events);
            assert(dirty@.to_set() =~= Set::<RetainedNodeId>::empty());
        }
        loop
            invariant
                self.wf(),
                events == self@.2,
                self@.0,
                self@.1 <= from < to,
                events.len() > 0,
                events[0].1 == to,
                events[0].0 != from,
                0 <= i <= events.len(),
                chain_events(cursor) == events.skip(i),
                chain_wf(cursor),
                i < events.len() ==> expected == events[i].1,
                i > 0 ==> expected == events[i - 1].0,
                dirty@.no_duplicates(),
                collect_events(events, from) == lift_collected(
                    bounds@,
                    dirty@.to_set(),
                    collect_events(events.skip(i), from),
                ),
            decreases events.len() - i,
        {
            let step = match cursor {
                Some(step) => step,
                None => {
                    proof {
                        assert(collect_events(events.skip(i), from) is None);
                    }
                    return Err(());
                },
            };
            proof {
                assert(events.skip(i)[0] == (step.from, step.to, step.damage@));
                assert(events.skip(i).drop_first() == events.skip(i + 1));
                assert(chain_events(step.previous) == events.skip(i + 1));
            }
            if step.to != expected || step.from < from {
                return Err(());
            }
            let ghost before_bounds = bounds@;
            let ghost before_dirty = dirty@.to_set();
            append_bounds(&mut bounds, &step.damage.bounds);
            extend_unique_ids(&mut dirty, &step.damage.dirty_backdrops);
            proof {
                lemma_lift_step(
                    before_bounds,
                    before_dirty,
                    events.skip(i),
                    from,
                );
            }
            if step.from == from {
                let merged = ResolvedDamage { bounds, dirty_backdrops: dirty };
                return Ok(Some(Cow::Owned(merged)));
            }
            expected = step.from;
            cursor = match &step.previous {
                Some(p) => Some(p.clone()),
                None => None,
            };
            proof {
                i = i + 1;
            }
        }
    }

    /// The damage of the newest event, as recorded.
    pub fn latest_event(&self) -> (d: Option<&ResolvedDamage>)
        requires
            self.wf(),
        ensures
            match d {
                Some(d) => self@.2.len() > 0 && d@ == self@.2[0].2,
                None => self@.2.len() == 0,
            },
    {
        match &self.tail {
            Some(step) => Some(&step.damage),
            None => None,
        }
    }

    pub fn is_scoped(&self) -> (r: bool)
        ensures
            r == self@.0,
    {
        self.scoped
    }
}

/// Prepends already collected damage to a collection result.
pub open spec fn lift_collected(
    bounds: Seq<Bounds>,
    dirty: Set<RetainedNodeId>,
    rest: Option<(Seq<Bounds>, Set<RetainedNodeId>)>,
) -> Option<(Seq<Bounds>, Set<RetainedNodeId>)> {
    match rest {
        None => None,
        Some(r) => Some((bounds + r.0, dirty.union(r.1))),
    }
}

proof fn lemma_lift_step(
    bounds: Seq<Bounds>,
    dirty: Set<RetainedNodeId>,
    events: Seq<DamageEvent>,
    from: u64,
)
    requires
        events.len() > 0,
        events[0].0 >= from,
    ensures
        events[0].0 == from ==> lift_collected(bounds, dirty, collect_events(events, from))
            == Some::<(Seq<Bounds>, Set<RetainedNodeId>)>(
            (bounds + events[0].2.0, dirty.union(events[0].2.1.to_set())),
        ),
        events[0].0 != from ==> lift_collected(bounds, dirty, collect_events(events, from))
            == lift_collected(
            bounds + events[0].2.0,
            dirty.union(events[0].2.1.to_set()),
            collect_events(events.drop_first(), from),
        ),
{
    if events[0].0 != from {
        match collect_events(events.drop_first(), from) {
            None => {},
            Some(r) => {
                assert(bounds + (events[0].2.0 + r.0) == (bounds + events[0].2.0) + r.0);
                assert(dirty.union(events[0].2.1.to_set().union(r.1)) =~= dirty.union(
                    events[0].2.1.to_set(),
                ).union(r.1));
            },
        }
    }
}

fn append_bounds(dst: &mut Vec<Bounds>, src: &Vec<Bounds>)
    ensures
        final(dst)@ == old(dst)@ + src@,
{
    let mut i: usize = 0;
    while i < src.len()
        invariant
            i <= src@.len(),
            dst@ == old(dst)@ + src@.subrange(0, i as int),
        decreases src.len() - i,
    {
        dst.push(src[i]);
        i = i + 1;
        assert(src@.subrange(0, i as int) == src@.subrange(0, i - 1).push(src@[i - 1]));
    }
    assert(src@.subrange(0, src@.len() as int) == src@);
}

/// Adds each identity of `src` that `dst` does not hold yet.
fn extend_unique_ids(dst: &mut Vec<RetainedNodeId>, src: &Vec<RetainedNodeId>)
    requires
        old(dst)@.no_duplicates(),
    ensures
        final(dst)@.no_duplicates(),
        final(dst)@.to_set() == old(dst)@.to_set().union(src@.to_set()),
{
    let mut i: usize = 0;
    while i < src.len()
        invariant
            i <= src@.len(),
            dst@.no_duplicates(),
            dst@.to_set() == old(dst)@.to_set().union(src@.subrange(0, i as int).to_set()),
        decreases src.len() - i,
    {
        let id = src[i];
        let mut found = false;
        let mut k: usize = 0;
        while k < dst.len()
            invariant
                k <= dst@.len(),
                found == exists|j: int| 0 <= j < k && dst@[j] == id,
            decreases dst.len() - k,
        {
            if dst[k] == id {
                found = true;
            }
            k = k + 1;
        }
        let ghost before = dst@;
        if !found {
            dst.push(id);
            proof {
                assert forall|a: int, b: int|
                    0 <= a < dst@.len() && 0 <= b < dst@.len() && a != b implies dst@[a]
                    != dst@[b] by {
                    if a < before.len() && b < before.len() {
                        assert(before[a] != before[b]);
                    }
                }
            }
        }
        proof {
            let pre = src@.subrange(0, i as int);
            let post = src@.subrange(0, i + 1);
            assert(post == pre.push(id));
            assert forall|x: RetainedNodeId| #[trigger] dst@.contains(x) <==> (old(dst)@.contains(x)
                || post.contains(x)) by {
                assert(before.to_set().contains(x) == old(dst)@.to_set().union(
                    pre.to_set(),
                ).contains(x));
                assert(before.contains(x) <==> (old(dst)@.contains(x) || pre.contains(x)));
                assert(post.contains(x) <==> (pre.contains(x) || x == id)) by {
                    if post.contains(x) && x != id {
                        let j = choose|j: int| 0 <= j < post.len() && post[j] == x;
                        assert(pre[j] == x);
                    }
                    if pre.contains(x) {
                        let j = choose|j: int| 0 <= j < pre.len() && pre[j] == x;
                        assert(post[j] == x);
                    }
                    if x == id {
                        assert(post[i as int] == id);
                    }
                }
                if found {
                    assert(dst@ == before);
                    if x == id {
                        let j = choose|j: int| 0 <= j < k && before[j] == id;
                        assert(before.contains(id));
                    }
                } else {
                    assert(dst@ == before.push(id));
                    assert(dst@.contains(x) <==> (before.contains(x) || x == id)) by {
                        if dst@.contains(x) && x != id {
                            let j = choose|j: int| 0 <= j < dst@.len() && dst@[j] == x;
                            assert(before[j] == x);
                        }
                        if before.contains(x) {
                            let j = choose|j: int| 0 <= j < before.len() && before[j] == x;
                            assert(dst@[j] == x);
                        }
                        if x == id {
                            assert(dst@[before.len() as int] == id);
                        }
                    }
                }
            }
            assert(dst@.to_set() =~= old(dst)@.to_set().union(post.to_set()));
        }
        i = i + 1;
    }
    assert(src@.subrange(0, src@.len() as int) == src@);
}

/// Recording a step keeps a history well formed.
pub proof fn lemma_advance_keeps_wf(
    h: HistoryView,
    scoped: bool,
    from: u64,
    to: u64,
    damage: Option<(Seq<Bounds>, Seq<RetainedNodeId>)>,
)
    requires
        history_wf(h),
    ensures
        history_wf(advance_view(h, scoped, from, to, damage)),
{
    let next = advance_view(h, scoped, from, to, damage);
    if scoped && damage is Some {
        let linked = h.2.len() > 0 && h.2[0].1 == from && h.2.len() < MAX_STEPS;
        if linked {
            assert forall|i: int| 0 <= i < next.2.len() - 1 implies (#[trigger] next.2[i + 1]).1
                == next.2[i].0 by {
                if i > 0 {
                    assert(next.2[i + 1] == h.2[i]);
                    assert(h.2[(i - 1) + 1].1 == h.2[i - 1].0);
                }
            }
            assert(next.2.last() == h.2.last());
        }
    }
}

/// Reading back a step that was just recorded with damage gives exactly that damage, provided
/// the history can still resolve from the step's start.
pub proof fn law_resolve_returns_recorded_damage(
    h: HistoryView,
    from: u64,
    to: u64,
    d: (Seq<Bounds>, Seq<RetainedNodeId>),
)
    requires
        history_wf(h),
        from < to,
        advance_view(h, true, from, to, Some(d)).1 <= from,
    ensures
        resolve_view(advance_view(h, true, from, to, Some(d)), from, to) == Ok::<
            Option<(Seq<Bounds>, Set<RetainedNodeId>)>,
            (),
        >(Some((d.0, d.1.to_set()))),
{
}

/// Resolving a version against itself yields no damage.
pub proof fn law_resolve_same_version_is_empty(h: HistoryView, version: u64)
    requires
        history_wf(h),
        h.0,
        h.1 <= version,
    ensures
        resolve_view(h, version, version) == Ok::<Option<(Seq<Bounds>, Set<RetainedNodeId>)>, ()>(
            Some((Seq::empty(), Set::empty())),
        ),
{
}

/// A scoped step recorded without damage cuts the history: nothing before its end can be
/// resolved any more, and resolving from its end works again.
pub proof fn law_incomplete_step_requires_recovery(
    h: HistoryView,
    from: u64,
    to: u64,
    x: u64,
    y: u64,
)
    requires
        history_wf(h),
    ensures
        x < to ==> resolve_view(advance_view(h, true, from, to, None), x, y) is Err,
        resolve_view(advance_view(h, true, from, to, None), to, to) == Ok::<
            Option<(Seq<Bounds>, Set<RetainedNodeId>)>,
            (),
        >(Some((Seq::empty(), Set::empty()))),
{
}

/// Leaving the scoped domain drops its events: a resolution that starts before the transition
/// requires recovery, one that starts after it keeps the root-domain diff, and further steps
/// outside the domain change nothing.
pub proof fn law_domain_exit(
    h: HistoryView,
    from: u64,
    to: u64,
    damage: Option<(Seq<Bounds>, Seq<RetainedNodeId>)>,
    x: u64,
    y: u64,
)
    requires
        history_wf(h),
    ensures
        h.0 && x < to ==> resolve_view(advance_view(h, false, from, to, damage), x, y) is Err,
        h.0 && to <= x <= y ==> resolve_view(advance_view(h, false, from, to, damage), x, y)
            == Ok::<Option<(Seq<Bounds>, Set<RetainedNodeId>)>, ()>(None),
        !h.0 ==> advance_view(h, false, from, to, damage) == h,
{
}

/// Frames that were never resolved one by one resolve as a whole: the union of their damage,
/// newest bounds first, without replaying either step.
pub proof fn law_skipped_steps_union(
    h: HistoryView,
    a: u64,
    b: u64,
    c: u64,
    d1: (Seq<Bounds>, Seq<RetainedNodeId>),
    d2: (Seq<Bounds>, Seq<RetainedNodeId>),
)
    requires
        history_wf(h),
        h.1 <= a < b < c,
        h.2.len() + 2 <= MAX_STEPS,
    ensures
        resolve_view(
            advance_view(advance_view(h, true, a, b, Some(d1)), true, b, c, Some(d2)),
            a,
            c,
        ) == Ok::<Option<(Seq<Bounds>, Set<RetainedNodeId>)>, ()>(
            Some((d2.0 + d1.0, d2.1.to_set().union(d1.1.to_set()))),
        ),
{
    let h1 = advance_view(h, true, a, b, Some(d1));
    let h2 = advance_view(h1, true, b, c, Some(d2));
    assert(h2.2[0] == (b, c, d2));
    assert(h2.2.drop_first() == h1.2);
    assert(h1.2[0] == (a, b, d1));
    assert(h2.1 <= a);
    assert(collect_events(h1.2, a) == Some::<(Seq<Bounds>, Set<RetainedNodeId>)>(
        (d1.0, d1.1.to_set()),
    ));
    assert(collect_events(h2.2, a) == Some::<(Seq<Bounds>, Set<RetainedNodeId>)>(
        (d2.0 + d1.0, d2.1.to_set().union(d1.1.to_set())),
    ));
}

/// A history never holds more than `MAX_STEPS` events, so a resolution across more steps
/// requires recovery.
pub proof fn law_history_is_bounded(h: HistoryView)
    requires
        history_wf(h),
    ensures
        h.2.len() <= MAX_STEPS,
{
}

/// The history after scoped steps from `versions[j]` to `versions[j + 1]` with damage
/// `damages[j]`, for each `j` in order.
pub open spec fn advance_steps(
    h: HistoryView,
    versions: Seq<u64>,
    damages: Seq<(Seq<Bounds>, Seq<RetainedNodeId>)>,
) -> HistoryView
    decreases damages.len(),
{
    if damages.len() == 0 {
        h
    } else {
        let n = damages.len() - 1;
        advance_view(
            advance_steps(h, versions, damages.drop_last()),
            true,
            versions[n],
            versions[n + 1],
            Some(damages.last()),
        )
    }
}

/// Damage of steps `i` up to `n`: their bounds, newest step first, and the union of their
/// dirty backdrops.
pub open spec fn steps_damage(
    damages: Seq<(Seq<Bounds>, Seq<RetainedNodeId>)>,
    i: int,
    n: int,
) -> (Seq<Bounds>, Set<RetainedNodeId>)
    decreases n - i,
{
    if n <= i + 1 {
        (damages[i].0, damages[i].1.to_set())
    } else {
        let rest = steps_damage(damages, i, n - 1);
        (damages[n - 1].0 + rest.0, damages[n - 1].1.to_set().union(rest.1))
    }
}

/// The events of `n` contiguous steps, newest first.
spec fn step_events(
    versions: Seq<u64>,
    damages: Seq<(Seq<Bounds>, Seq<RetainedNodeId>)>,
    n: int,
) -> Seq<DamageEvent> {
    Seq::new(n as nat, |j: int| (versions[n - 1 - j], versions[n - j], damages[n - 1 - j]))
}

spec fn increasing(versions: Seq<u64>) -> bool {
    forall|a: int, b: int| 0 <= a < b < versions.len() ==> versions[a] < versions[b]
}

proof fn lemma_advance_steps_events(
    versions: Seq<u64>,
    damages: Seq<(Seq<Bounds>, Seq<RetainedNodeId>)>,
)
    requires
        versions.len() == damages.len() + 1,
        damages.len() <= MAX_STEPS,
    ensures
        advance_steps((true, versions[0], Seq::empty()), versions, damages) == (
            true,
            versions[0],
            step_events(versions, damages, damages.len() as int),
        ),
    decreases damages.len(),
{
    let n = damages.len() as int;
    if n > 0 {
        let prior = damages.drop_last();
        lemma_advance_steps_events(versions.drop_last(), prior);
        assert(advance_steps((true, versions[0], Seq::empty()), versions, prior) == advance_steps(
            (true, versions[0], Seq::empty()),
            versions.drop_last(),
            prior,
        )) by {
            lemma_advance_steps_prefix(versions, prior);
        }
        let ev = step_events(versions.drop_last(), prior, n - 1);
        let next = seq![(versions[n - 1], versions[n], damages[n - 1])] + ev;
        assert(next =~= step_events(versions, damages, n));
    } else {
        assert(step_events(versions, damages, 0) =~= Seq::<DamageEvent>::empty());
    }
}

/// Steps only read the versions they lead between.
proof fn lemma_advance_steps_prefix(
    versions: Seq<u64>,
    damages: Seq<(Seq<Bounds>, Seq<RetainedNodeId>)>,
)
    requires
        versions.len() >= damages.len() + 2,
    ensures
        forall|h: HistoryView|
            #[trigger] advance_steps(h, versions, damages) == advance_steps(
                h,
                versions.drop_last(),
                damages,
            ),
    decreases damages.len(),
{
    if damages.len() > 0 {
        lemma_advance_steps_prefix(versions, damages.drop_last());
        let n = damages.len() - 1;
        assert(versions.drop_last()[n] == versions[n]);
        assert(versions.drop_last()[n + 1] == versions[n + 1]);
        assert forall|h: HistoryView|
            #[trigger] advance_steps(h, versions, damages) == advance_steps(
                h,
                versions.drop_last(),
                damages,
            ) by {
            assert(advance_steps(h, versions, damages.drop_last()) == advance_steps(
                h,
                versions.drop_last(),
                damages.drop_last(),
            ));
        }
    }
}

proof fn lemma_collect_steps(
    versions: Seq<u64>,
    damages: Seq<(Seq<Bounds>, Seq<RetainedNodeId>)>,
    n: int,
    i: int,
)
    requires
        versions.len() == damages.len() + 1,
        increasing(versions),
        0 <= i < n <= damages.len(),
    ensures
        collect_events(step_events(versions, damages, n), versions[i]) == Some(
            steps_damage(damages, i, n),
        ),
    decreases n,
{
    let ev = step_events(versions, damages, n);
    assert(ev[0] == (versions[n - 1], versions[n], damages[n - 1]));
    if i < n - 1 {
        assert(ev.drop_first() =~= step_events(versions, damages, n - 1));
        lemma_collect_steps(versions, damages, n - 1, i);
        assert(versions[i] < versions[n - 1]);
    }
}

/// Resolving across a run of recorded steps gives the damage of every step from the one
/// leading from the start version on: their bounds, newest step first, and the union of their
/// dirty backdrops.
pub proof fn law_resolve_across_steps(
    versions: Seq<u64>,
    damages: Seq<(Seq<Bounds>, Seq<RetainedNodeId>)>,
    i: int,
)
    requires
        versions.len() == damages.len() + 1,
        1 <= damages.len() <= MAX_STEPS,
        forall|a: int, b: int| 0 <= a < b < versions.len() ==> versions[a] < versions[b],
        0 <= i < damages.len(),
    ensures
        resolve_view(
            advance_steps((true, versions[0], Seq::empty()), versions, damages),
            versions[i],
            versions[damages.len() as int],
        ) == Ok::<Option<(Seq<Bounds>, Set<RetainedNodeId>)>, ()>(
            Some(steps_damage(damages, i, damages.len() as int)),
        ),
{
    let n = damages.len() as int;
    lemma_advance_steps_events(versions, damages);
    lemma_collect_steps(versions, damages, n, i);
    assert(versions[0] <= versions[i]);
    assert(versions[i] < versions[n]);
}

} // verus!
