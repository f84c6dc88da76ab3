//! One traversal buffer, with a separate visible range for each offscreen input.
//!
//! This removes per-layer work-vector allocations without allowing damage from the parent or
//! a sibling texture to enter an isolated input.
use vstd::prelude::*;
use crate::bounds::Bounds;

verus! {

/// What merging `incoming` behind `base` keeps, in order: each non-empty rectangle that is not
/// already in `base` and was not kept before it.
pub open spec fn kept_unique(base: Seq<Bounds>, incoming: Seq<Bounds>) -> Seq<Bounds>
    decreases incoming.len(),
{
    if incoming.len() == 0 {
        Seq::empty()
    } else {
        let prior = kept_unique(base, incoming.drop_last());
        let b = incoming.last();
        if !b.empty_spec() && !(base + prior).contains(b) {
            prior.push(b)
        } else {
            prior
        }
    }
}

/// No rectangle of `s` is empty and none occurs twice.
pub open spec fn unique_nonempty(s: Seq<Bounds>) -> bool {
    &&& s.no_duplicates()
    &&& forall|i: int| 0 <= i < s.len() ==> !(#[trigger] s[i]).empty_spec()
}

/// Damage of the enclosing range, saved while an isolated input is traversed.
pub struct DamageScope {
    parent_start: usize,
    parent_end: usize,
}

impl DamageScope {
    /// Start of the enclosing range.
    pub closed spec fn parent_start(self) -> nat {
        self.parent_start as nat
    }

    /// End of the enclosing range when the scope was entered.
    pub closed spec fn parent_end(self) -> nat {
        self.parent_end as nat
    }
}

pub struct DamageBuffer {
    values: Vec<Bounds>,
    start: usize,
}

impl DamageBuffer {
    /// All rectangles of the buffer, enclosing ranges first.
    pub closed spec fn values(self) -> Seq<Bounds> {
        self.values@
    }

    /// Where the visible range begins.
    pub closed spec fn start(self) -> nat {
        self.start as nat
    }

    pub open spec fn wf(self) -> bool {
        self.start() <= self.values().len()
    }

    /// The rectangles visible to the current input.
    pub open spec fn current_spec(self) -> Seq<Bounds> {
        self.values().subrange(self.start() as int, self.values().len() as int)
    }

    pub fn new(seeds: &[Bounds]) -> (buffer: DamageBuffer)
        ensures
            buffer.wf(),
            buffer.values() == seeds@,
            buffer.start() == 0,
    {
        let mut values: Vec<Bounds> = Vec::new();
        let mut i: usize = 0;
        while i < seeds.len()
            invariant
                i <= seeds.len(),
                values@ == seeds@.subrange(0, i as int),
            decreases seeds.len() - i,
        {
            values.push(seeds[i]);
            i = i + 1;
        }
        DamageBuffer { values, start: 0 }
    }

    pub fn current(&self) -> (current: &[Bounds])
        requires
            self.wf(),
        ensures
            current@ == self.current_spec(),
    {
        slice_from(self.values.as_slice(), self.start)
    }

    /// Adds a non-empty rectangle that the visible range does not hold yet.
    pub fn push_unique(&mut self, bounds: Bounds)
        requires
            old(self).wf(),
        ensures
            final(self).wf(),
            final(self).start() == old(self).start(),
            final(self).values() == if !bounds.empty_spec() && !old(self).current_spec().contains(
                bounds,
            ) {
                old(self).values().push(bounds)
            } else {
                old(self).values()
            },
    {
        let len = self.values.len();
        if !bounds.is_empty() && !range_contains(&self.values, self.start, len, bounds) {
            self.values.push(bounds);
        }
    }

    /// Opens an isolated input seeded with `seeds`; the enclosing range is hidden until the
    /// scope is finished.
    pub fn enter_scope(&mut self, seeds: &[Bounds]) -> (scope: DamageScope)
        requires
            old(self).wf(),
        ensures
            final(self).wf(),
            scope.parent_start() == old(self).start(),
            scope.parent_end() == old(self).values().len(),
            final(self).start() == old(self).values().len(),
            final(self).values() == old(self).values() + seeds@,
            final(self).current_spec() == seeds@,
    {
        let scope = DamageScope { parent_start: self.start, parent_end: self.values.len() };
        self.start = scope.parent_end;
        let mut i: usize = 0;
        while i < seeds.len()
            invariant
                i <= seeds.len(),
                self.start == scope.parent_end,
                scope.parent_end == old(self).values@.len(),
                self.values@ == old(self).values@ + seeds@.subrange(0, i as int),
            decreases seeds.len() - i,
        {
            self.values.push(seeds[i]);
            i = i + 1;
            assert(seeds@.subrange(0, i as int) == seeds@.subrange(0, i - 1).push(seeds@[i - 1]));
        }
        assert(seeds@.subrange(0, seeds@.len() as int) == seeds@);
        assert(self.values@.subrange(self.start as int, self.values@.len() as int) == seeds@);
        scope
    }

    /// Closes an isolated input: its non-empty rectangles that the enclosing range does not
    /// already hold join that range, in order and without repeats, and the enclosing range
    /// becomes visible again.
    pub fn finish_scope(&mut self, scope: DamageScope)
        requires
            old(self).wf(),
            old(self).start() == scope.parent_end(),
            scope.parent_start() <= scope.parent_end(),
        ensures
            final(self).wf(),
            final(self).start() == scope.parent_start(),
            final(self).values() == old(self).values().subrange(0, scope.parent_end() as int)
                + kept_unique(
                old(self).values().subrange(
                    scope.parent_start() as int,
                    scope.parent_end() as int,
                ),
                old(self).current_spec(),
            ),
    {
        let ghost old_values = self.values@;
        let ghost base = old_values.subrange(scope.parent_start as int, scope.parent_end as int);
        let ghost incoming = old_values.subrange(
            scope.parent_end as int,
            old_values.len() as int,
        );
        let len = self.values.len();
        let mut write: usize = scope.parent_end;
        let mut read: usize = scope.parent_end;
        while read < len
            invariant
                scope.parent_start <= scope.parent_end <= write <= read <= len,
                len == old_values.len(),
                self.values@.len() == len,
                base == old_values.subrange(scope.parent_start as int, scope.parent_end as int),
                incoming == old_values.subrange(scope.parent_end as int, len as int),
                self.values@.subrange(0, scope.parent_end as int) == old_values.subrange(
                    0,
                    scope.parent_end as int,
                ),
                self.values@.subrange(scope.parent_end as int, write as int) == kept_unique(
                    base,
                    incoming.subrange(0, read - scope.parent_end),
                ),
                self.values@.subrange(read as int, len as int) == old_values.subrange(
                    read as int,
                    len as int,
                ),
            decreases len - read,
        {
            let b = self.values[read];
            let ghost before = self.values@;
            let ghost prior = kept_unique(base, incoming.subrange(0, read - scope.parent_end));
            assert(self.values@.subrange(read as int, len as int)[0] == b);
            assert(old_values.subrange(read as int, len as int)[0] == old_values[read as int]);
            assert(b == incoming[read - scope.parent_end]);
            assert(incoming.subrange(0, read + 1 - scope.parent_end).drop_last()
                == incoming.subrange(0, read - scope.parent_end));
            assert(self.values@.subrange(scope.parent_start as int, scope.parent_end as int)
                == base) by {
                assert(self.values@.subrange(scope.parent_start as int, scope.parent_end as int)
                    == self.values@.subrange(0, scope.parent_end as int).subrange(
                    scope.parent_start as int,
                    scope.parent_end as int,
                ));
                assert(old_values.subrange(scope.parent_start as int, scope.parent_end as int)
                    == old_values.subrange(0, scope.parent_end as int).subrange(
                    scope.parent_start as int,
                    scope.parent_end as int,
                ));
            }
            assert(self.values@.subrange(scope.parent_start as int, write as int) == base
                + prior);
            if !b.is_empty() && !range_contains(&self.values, scope.parent_start, write, b) {
                self.values.set(write, b);
                write = write + 1;
                assert(self.values@.subrange(scope.parent_end as int, write as int)
                    == prior.push(b));
            }
            read = read + 1;
            assert forall|k: int| read <= k < len implies self.values@[k] == old_values[k] by {
                assert(before.subrange((read - 1) as int, len as int)[k - (read - 1)]
                    == old_values.subrange((read - 1) as int, len as int)[k - (read - 1)]);
            }
            assert(self.values@.subrange(read as int, len as int) == old_values.subrange(
                read as int,
                len as int,
            ));
        }
        assert(incoming.subrange(0, len - scope.parent_end) == incoming);
        self.values.truncate(write);
        self.start = scope.parent_start;
        assert(self.values@ == self.values@.subrange(0, scope.parent_end as int)
            + self.values@.subrange(scope.parent_end as int, write as int));
    }

    pub fn into_vec(self) -> (values: Vec<Bounds>)
        requires
            self.start() == 0,
        ensures
            values@ == self.values(),
    {
        self.values
    }
}

/// The suffix of `s` from `start`.
fn slice_from(s: &[Bounds], start: usize) -> (r: &[Bounds])
    requires
        start <= s@.len(),
    ensures
        r@ == s@.subrange(start as int, s@.len() as int),
{
    vstd::slice::slice_subrange(s, start, s.len())
}

/// Whether `b` occurs in `v[lo..hi]`.
fn range_contains(v: &Vec<Bounds>, lo: usize, hi: usize, b: Bounds) -> (r: bool)
    requires
        lo <= hi <= v@.len(),
    ensures
        r == v@.subrange(lo as int, hi as int).contains(b),
{
    let mut i = lo;
    while i < hi
        invariant
            lo <= i <= hi <= v@.len(),
            forall|k: int| lo <= k < i ==> v@[k] != b,
        decreases hi - i,
    {
        if v[i] == b {
            assert(v@.subrange(lo as int, hi as int)[i - lo] == b);
            return true;
        }
        i = i + 1;
    }
    assert(!v@.subrange(lo as int, hi as int).contains(b)) by {
        if v@.subrange(lo as int, hi as int).contains(b) {
            let k = choose|k: int| 0 <= k < hi - lo && v@.subrange(lo as int, hi as int)[k] == b;
            assert(v@[lo + k] == b);
        }
    }
    false
}

/// Merging an isolated input keeps the enclosing range free of empty and repeated
/// rectangles: if the enclosing range had none, the merged range has none.
pub proof fn lemma_merge_stays_unique(base: Seq<Bounds>, incoming: Seq<Bounds>)
    requires
        unique_nonempty(base),
    ensures
        unique_nonempty(base + kept_unique(base, incoming)),
    decreases incoming.len(),
{
    if incoming.len() > 0 {
        let prior = kept_unique(base, incoming.drop_last());
        lemma_merge_stays_unique(base, incoming.drop_last());
        let b = incoming.last();
        if !b.empty_spec() && !(base + prior).contains(b) {
            assert(base + prior.push(b) == (base + prior).push(b));
            let s = (base + prior).push(b);
            assert forall|i: int, j: int| 0 <= i < j < s.len() implies s[i] != s[j] by {
                if j == s.len() - 1 {
                    assert((base + prior)[i] == s[i]);
                }
            }
        }
    }
}

/// Merging loses no damage: every non-empty rectangle of the isolated input is held by the
/// merged enclosing range, and the merge adds nothing that the input did not hold.
pub proof fn lemma_merge_keeps_all_damage(base: Seq<Bounds>, incoming: Seq<Bounds>)
    ensures
        forall|i: int|
            0 <= i < incoming.len() && !(#[trigger] incoming[i]).empty_spec() ==> (base
                + kept_unique(base, incoming)).contains(incoming[i]),
        forall|b: Bounds| #[trigger] kept_unique(base, incoming).contains(b) ==> incoming.contains(b),
    decreases incoming.len(),
{
    if incoming.len() > 0 {
        let rest = incoming.drop_last();
        let prior = kept_unique(base, rest);
        let merged = base + kept_unique(base, incoming);
        lemma_merge_keeps_all_damage(base, rest);
        let b = incoming.last();
        assert(kept_unique(base, incoming) == prior || kept_unique(base, incoming) == prior.push(b));
        assert forall|i: int|
            0 <= i < incoming.len() && !(#[trigger] incoming[i]).empty_spec() implies merged.contains(
                incoming[i],
            ) by {
            if i < incoming.len() - 1 {
                assert(rest[i] == incoming[i]);
                let k = choose|k: int| 0 <= k < (base + prior).len() && (base + prior)[k] == rest[i];
                assert(merged[k] == (base + prior)[k]);
            } else {
                if (base + prior).contains(b) {
                    let k = choose|k: int| 0 <= k < (base + prior).len() && (base + prior)[k] == b;
                    assert(merged[k] == (base + prior)[k]);
                } else {
                    assert(merged[merged.len() - 1] == b);
                }
            }
        }
        assert forall|x: Bounds| #[trigger] kept_unique(base, incoming).contains(x) implies incoming.contains(x) by {
            if prior.contains(x) {
                let k = choose|k: int| 0 <= k < rest.len() && rest[k] == x;
                assert(incoming[k] == x);
            } else {
                assert(x == b);
                assert(incoming[incoming.len() - 1] == b);
            }
        }
    }
}

/// An isolated input that gained no damage leaves the enclosing range as it was.
pub proof fn lemma_empty_scope_changes_nothing(base: Seq<Bounds>)
    ensures
        kept_unique(base, Seq::empty()) == Seq::<Bounds>::empty(),
{
}

} // verus!
