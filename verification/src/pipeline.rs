//! The filtering pipeline: classify each event, apply the exclusion filter
//! for the event's own group and for the wildcard group, keep the survivors,
//! and accumulate per-group duration totals.

use vstd::prelude::*;

verus! {

use crate::event::{spec_duration, Event, Property};
use crate::rules::{
    spec_classify, spec_remove_decision, MatchEntryView, MatchTree, RemoveEntryView, RemoveTree,
};
use crate::time::{div_trunc, div_trunc_i128};

/// The reserved group id whose exclusion rules apply to every classified
/// event.
pub const WILDCARD_GROUP: isize = -1;

/// Whether the remove tree excludes an event for the given group id.
pub open spec fn spec_excluded(rt: Seq<RemoveEntryView>, id: int, props: Seq<Property>) -> bool {
    spec_remove_decision(rt, id, props) == Some(true)
}

/// The pipeline's decision for one event: the group it is kept in, or `None`
/// when it is dropped because no group matches, or because its own group's
/// windows or the wildcard group's windows exclude it.
pub open spec fn spec_keep(
    mt: Seq<MatchEntryView>,
    rt: Seq<RemoveEntryView>,
    props: Seq<Property>,
) -> Option<int> {
    match spec_classify(mt, props) {
        None => None,
        Some(g) => if spec_excluded(rt, g, props) || spec_excluded(rt, -1, props) {
            None
        } else {
            Some(g)
        },
    }
}

/// Decide one event: `Some(group)` when the event is kept in that group.
pub fn evaluate_event(mt: &MatchTree, rt: &RemoveTree, event: &Event) -> (r: Option<isize>)
    ensures
        match r {
            Some(g) => spec_keep(mt@, rt@, event@) == Some(g as int),
            None => spec_keep(mt@, rt@, event@) is None,
        },
{
    match mt.is_match(event) {
        None => None,
        Some(g) => {
            let own_excluded = match rt.is_match(g, event) {
                Some(true) => true,
                _ => false,
            };
            let wildcard_excluded = match rt.is_match(WILDCARD_GROUP, event) {
                Some(true) => true,
                _ => false,
            };
            if own_excluded || wildcard_excluded {
                None
            } else {
                Some(g)
            }
        },
    }
}

// ---------------------------------------------------------------------------
// Per-group duration totals.
// ---------------------------------------------------------------------------

/// Addition on the 128-bit totals, saturating at the type's bounds.
pub open spec fn sat_add_i128(a: int, b: int) -> int {
    if a + b > i128::MAX as int {
        i128::MAX as int
    } else if a + b < i128::MIN as int {
        i128::MIN as int
    } else {
        a + b
    }
}

/// The accumulated total of a group, 0 before the group is first seen.
pub open spec fn stats_get(s: Seq<(isize, i128)>, id: int) -> int
    decreases s.len(),
{
    if s.len() == 0 {
        0
    } else if s[0].0 as int == id {
        s[0].1 as int
    } else {
        stats_get(s.drop_first(), id)
    }
}

/// Whether the group has an entry in the table.
pub open spec fn stats_has(s: Seq<(isize, i128)>, id: int) -> bool
    decreases s.len(),
{
    if s.len() == 0 {
        false
    } else if s[0].0 as int == id {
        true
    } else {
        stats_has(s.drop_first(), id)
    }
}

/// Entries sorted by strictly ascending group id.
pub open spec fn stats_sorted(s: Seq<(isize, i128)>) -> bool {
    forall|i: int, j: int| 0 <= i < j < s.len() ==> (#[trigger] s[i]).0 < (#[trigger] s[j]).0
}

/// The first entry carrying an id gives the group's total.
proof fn lemma_stats_first(s: Seq<(isize, i128)>, p: int)
    requires
        0 <= p < s.len(),
        forall|k: int| 0 <= k < p ==> (#[trigger] s[k]).0 != s[p].0,
    ensures
        stats_get(s, s[p].0 as int) == s[p].1 as int,
        stats_has(s, s[p].0 as int),
    decreases p,
{
    if p > 0 {
        assert(forall|k: int| 0 <= k < p - 1 ==> s.drop_first()[k] == #[trigger] s[k + 1]);
        assert(s.drop_first()[p - 1] == s[p]);
        lemma_stats_first(s.drop_first(), p - 1);
    }
}

/// A group with no entry has total 0.
proof fn lemma_stats_absent(s: Seq<(isize, i128)>, g: int)
    requires
        forall|k: int| 0 <= k < s.len() ==> (#[trigger] s[k]).0 as int != g,
    ensures
        stats_get(s, g) == 0,
        !stats_has(s, g),
    decreases s.len(),
{
    if s.len() > 0 {
        assert(forall|k: int|
            0 <= k < s.drop_first().len() ==> s.drop_first()[k] == #[trigger] s[k + 1]);
        lemma_stats_absent(s.drop_first(), g);
    }
}

proof fn lemma_stats_update_same(s: Seq<(isize, i128)>, p: int, e: (isize, i128))
    requires
        0 <= p < s.len(),
        e.0 == s[p].0,
        forall|k: int| 0 <= k < p ==> (#[trigger] s[k]).0 != e.0,
    ensures
        stats_get(s.update(p, e), e.0 as int) == e.1 as int,
        stats_has(s.update(p, e), e.0 as int),
    decreases p,
{
    if p > 0 {
        assert(s.update(p, e).drop_first() =~= s.drop_first().update(p - 1, e));
        assert(forall|k: int| 0 <= k < p - 1 ==> s.drop_first()[k] == #[trigger] s[k + 1]);
        lemma_stats_update_same(s.drop_first(), p - 1, e);
    }
}

proof fn lemma_stats_update_other(s: Seq<(isize, i128)>, p: int, e: (isize, i128), g: int)
    requires
        0 <= p < s.len(),
        e.0 == s[p].0,
        g != e.0 as int,
    ensures
        stats_get(s.update(p, e), g) == stats_get(s, g),
        stats_has(s.update(p, e), g) == stats_has(s, g),
    decreases p,
{
    if p > 0 {
        assert(s.update(p, e).drop_first() =~= s.drop_first().update(p - 1, e));
        lemma_stats_update_other(s.drop_first(), p - 1, e, g);
    } else {
        assert(s.update(0, e).drop_first() =~= s.drop_first());
    }
}

proof fn lemma_stats_insert_same(s: Seq<(isize, i128)>, p: int, e: (isize, i128))
    requires
        0 <= p <= s.len(),
        forall|k: int| 0 <= k < p ==> (#[trigger] s[k]).0 != e.0,
    ensures
        stats_get(s.insert(p, e), e.0 as int) == e.1 as int,
        stats_has(s.insert(p, e), e.0 as int),
    decreases p,
{
    if p > 0 {
        assert(s.insert(p, e).drop_first() =~= s.drop_first().insert(p - 1, e));
        assert(forall|k: int| 0 <= k < p - 1 ==> s.drop_first()[k] == #[trigger] s[k + 1]);
        lemma_stats_insert_same(s.drop_first(), p - 1, e);
    } else {
        assert(s.insert(0, e)[0] == e);
    }
}

proof fn lemma_stats_insert_other(s: Seq<(isize, i128)>, p: int, e: (isize, i128), g: int)
    requires
        0 <= p <= s.len(),
        g != e.0 as int,
    ensures
        stats_get(s.insert(p, e), g) == stats_get(s, g),
        stats_has(s.insert(p, e), g) == stats_has(s, g),
    decreases p,
{
    if p > 0 {
        assert(s.insert(p, e)[0] == s[0]);
        assert(s.insert(p, e).drop_first() =~= s.drop_first().insert(p - 1, e));
        lemma_stats_insert_other(s.drop_first(), p - 1, e, g);
    } else {
        assert(s.insert(0, e)[0] == e);
        assert(s.insert(0, e).drop_first() =~= s);
    }
}

/// Per-group accumulated durations in seconds, sorted by ascending group id.
/// Created empty before a run, updated once per surviving event, and read at
/// the end.
#[derive(Debug)]
pub struct GroupStats {
    totals: Vec<(isize, i128)>,
}

impl View for GroupStats {
    type V = Seq<(isize, i128)>;

    closed spec fn view(&self) -> Seq<(isize, i128)> {
        self.totals@
    }
}

impl GroupStats {
    #[verifier::type_invariant]
    spec fn wf(self) -> bool {
        stats_sorted(self.totals@)
    }

    /// A fresh, empty table.
    pub fn new() -> (s: GroupStats)
        ensures
            s@ =~= Seq::<(isize, i128)>::empty(),
    {
        GroupStats { totals: Vec::new() }
    }

    /// Add a duration to a group's total, saturating at the table's bounds.
    pub fn add_seconds(&mut self, id: isize, secs: i64)
        ensures
            forall|g: int|
                stats_get(final(self)@, g) == if g == id as int {
                    sat_add_i128(stats_get(old(self)@, g), secs as int)
                } else {
                    stats_get(old(self)@, g)
                },
            forall|g: int|
                stats_has(final(self)@, g) == (stats_has(old(self)@, g) || g == id as int),
    {
        proof {
            use_type_invariant(&*self);
        }
        let ghost before = self.totals@;
        let mut t: Vec<(isize, i128)> = Vec::new();
        core::mem::swap(&mut t, &mut self.totals);
        let n = t.len();
        let mut p: usize = 0;
        while p < n && t[p].0 < id
            invariant
                n == t.len(),
                p <= n,
                t@ == before,
                forall|k: int| 0 <= k < p ==> (#[trigger] t@[k]).0 < id,
            decreases n - p,
        {
            p = p + 1;
        }
        if p < n && t[p].0 == id {
            let cur = t[p].1;
            let v = sat_add_exec(cur, secs);
            let _replaced = t.remove(p);
            t.insert(p, (id, v));
            proof {
                lemma_stats_first(before, p as int);
                assert(t@ =~= before.update(p as int, (id, v)));
                lemma_stats_update_same(before, p as int, (id, v));
                assert forall|g: int| g != id as int implies stats_get(t@, g) == stats_get(
                    before,
                    g,
                ) && stats_has(t@, g) == stats_has(before, g) by {
                    lemma_stats_update_other(before, p as int, (id, v), g);
                }
                assert(stats_sorted(t@));
            }
        } else {
            let v = sat_add_exec(0, secs);
            proof {
                assert forall|k: int|
                    0 <= k < before.len() implies (#[trigger] before[k]).0 as int
                    != id as int by {
                    if k >= p && p < before.len() {
                        if k > p {
                            assert(before[p as int].0 < before[k].0);
                        }
                    }
                }
                lemma_stats_absent(before, id as int);
            }
            t.insert(p, (id, v));
            proof {
                lemma_stats_insert_same(before, p as int, (id, v));
                assert forall|g: int| g != id as int implies stats_get(t@, g) == stats_get(
                    before,
                    g,
                ) && stats_has(t@, g) == stats_has(before, g) by {
                    lemma_stats_insert_other(before, p as int, (id, v), g);
                }
                assert forall|a: int, b: int|
                    0 <= a < b < t@.len() implies (#[trigger] t@[a]).0 < (#[trigger] t@[b]).0 by {
                    if b <= p {
                        if b < p {
                            assert(t@[a] == before[a] && t@[b] == before[b]);
                        } else {
                            assert(t@[a] == before[a]);
                        }
                    } else if a < p {
                        assert(t@[a] == before[a] && t@[b] == before[b - 1]);
                    } else if a == p {
                        assert(t@[b] == before[b - 1]);
                    } else {
                        assert(t@[a] == before[a - 1] && t@[b] == before[b - 1]);
                    }
                }
            }
        }
        self.totals = t;
    }

    /// The report: one row per group, its total in whole hours rounded toward
    /// zero, sorted by ascending group id.
    pub fn rows(&self) -> (r: Vec<(isize, i128)>)
        ensures
            r@.len() == self@.len(),
            forall|k: int|
                0 <= k < r@.len() ==> (#[trigger] r@[k]).0 == self@[k].0 && r@[k].1 as int
                    == div_trunc(self@[k].1 as int, 3600),
            forall|i: int, j: int| 0 <= i < j < r@.len() ==> (#[trigger] r@[i]).0 < (#[trigger] r@[j]).0,
    {
        proof {
            use_type_invariant(&*self);
        }
        let n = self.totals.len();
        let mut r: Vec<(isize, i128)> = Vec::new();
        for k in 0..n
            invariant
                n == self.totals.len(),
                stats_sorted(self.totals@),
                r@.len() == k,
                forall|j: int|
                    0 <= j < k ==> (#[trigger] r@[j]).0 == self@[j].0 && r@[j].1 as int
                        == div_trunc(self@[j].1 as int, 3600),
        {
            let entry = self.totals[k];
            r.push((entry.0, div_trunc_i128(entry.1, 3600)));
        }
        proof {
            assert forall|i: int, j: int| 0 <= i < j < r@.len() implies (#[trigger] r@[i]).0
                < (#[trigger] r@[j]).0 by {
                assert(self.totals@[i].0 < self.totals@[j].0);
            }
        }
        r
    }
}

/// Saturating addition of a duration to a total.
fn sat_add_exec(a: i128, b: i64) -> (r: i128)
    ensures
        r as int == sat_add_i128(a as int, b as int),
{
    match a.checked_add(b as i128) {
        Some(v) => v,
        None => {
            if b >= 0 {
                i128::MAX
            } else {
                i128::MIN
            }
        },
    }
}

// ---------------------------------------------------------------------------
// The per-collection filtering fold.
// ---------------------------------------------------------------------------

/// Whether an event adds its duration to group `g`: it is kept in `g` and
/// its duration is computable.
pub open spec fn spec_contributes(
    mt: Seq<MatchEntryView>,
    rt: Seq<RemoveEntryView>,
    e: Event,
    g: int,
) -> bool {
    spec_keep(mt, rt, e@) == Some(g) && spec_duration(e@) is Ok
}

/// The events of a collection that the pipeline keeps, in input order.
pub open spec fn spec_kept(
    mt: Seq<MatchEntryView>,
    rt: Seq<RemoveEntryView>,
    events: Seq<Event>,
) -> Seq<Event>
    decreases events.len(),
{
    if events.len() == 0 {
        Seq::empty()
    } else {
        let prev = spec_kept(mt, rt, events.drop_last());
        if spec_keep(mt, rt, events.last()@) is Some {
            prev.push(events.last())
        } else {
            prev
        }
    }
}

/// The total of group `g` after folding a collection's events over an
/// initial total, saturating at the table's bounds.
pub open spec fn spec_accumulate(
    mt: Seq<MatchEntryView>,
    rt: Seq<RemoveEntryView>,
    events: Seq<Event>,
    g: int,
    init: int,
) -> int
    decreases events.len(),
{
    if events.len() == 0 {
        init
    } else {
        let prev = spec_accumulate(mt, rt, events.drop_last(), g, init);
        if spec_contributes(mt, rt, events.last(), g) {
            sat_add_i128(prev, spec_duration(events.last()@)->Ok_0)
        } else {
            prev
        }
    }
}

/// Whether any event of the collection adds to group `g`.
pub open spec fn spec_group_touched(
    mt: Seq<MatchEntryView>,
    rt: Seq<RemoveEntryView>,
    events: Seq<Event>,
    g: int,
) -> bool
    decreases events.len(),
{
    if events.len() == 0 {
        false
    } else {
        spec_group_touched(mt, rt, events.drop_last(), g) || spec_contributes(
            mt,
            rt,
            events.last(),
            g,
        )
    }
}

/// Decide one event and, when it is kept, add its computable duration to its
/// group's running total. An uncomputable duration changes no total and does
/// not drop the event.
pub fn process_event(
    mt: &MatchTree,
    rt: &RemoveTree,
    event: &Event,
    stats: &mut GroupStats,
) -> (keep: bool)
    ensures
        keep == (spec_keep(mt@, rt@, event@) is Some),
        forall|g: int|
            stats_get(final(stats)@, g) == if spec_contributes(mt@, rt@, *event, g) {
                sat_add_i128(stats_get(old(stats)@, g), spec_duration(event@)->Ok_0)
            } else {
                stats_get(old(stats)@, g)
            },
        forall|g: int|
            stats_has(final(stats)@, g) == (stats_has(old(stats)@, g) || spec_contributes(
                mt@,
                rt@,
                *event,
                g,
            )),
{
    match evaluate_event(mt, rt, event) {
        Some(group) => {
            match event.duration() {
                Ok(d) => {
                    stats.add_seconds(group, d);
                },
                Err(_) => {},
            }
            true
        },
        None => false,
    }
}

/// Filter one collection of events: classify each event, drop it unless a
/// group matches and no exclusion window covers its start date, and add the
/// durations of the kept events to their groups' totals. The kept events come
/// back in their input order.
pub fn filter_events(
    events: Vec<Event>,
    mt: &MatchTree,
    rt: &RemoveTree,
    stats: &mut GroupStats,
) -> (kept: Vec<Event>)
    ensures
        kept@ =~= spec_kept(mt@, rt@, events@),
        forall|g: int|
            stats_get(final(stats)@, g) == spec_accumulate(
                mt@,
                rt@,
                events@,
                g,
                stats_get(old(stats)@, g),
            ),
        forall|g: int|
            stats_has(final(stats)@, g) == (stats_has(old(stats)@, g) || spec_group_touched(
                mt@,
                rt@,
                events@,
                g,
            )),
{
    let ghost all: Seq<Event> = events@;
    let mut kept: Vec<Event> = Vec::new();
    let mut rest = events;
    proof {
        assert(all.take(0) =~= Seq::<Event>::empty());
        assert(rest@ =~= all.skip(0));
    }
    while rest.len() > 0
        invariant
            rest@.len() <= all.len(),
            rest@ =~= all.skip(all.len() - rest@.len()),
            kept@ =~= spec_kept(mt@, rt@, all.take(all.len() - rest@.len())),
            forall|g: int|
                stats_get(stats@, g) == spec_accumulate(
                    mt@,
                    rt@,
                    all.take(all.len() - rest@.len()),
                    g,
                    stats_get(old(stats)@, g),
                ),
            forall|g: int|
                stats_has(stats@, g) == (stats_has(old(stats)@, g) || spec_group_touched(
                    mt@,
                    rt@,
                    all.take(all.len() - rest@.len()),
                    g,
                )),
        decreases rest.len(),
    {
        let ghost i = all.len() - rest@.len();
        let ghost stats_before = stats@;
        let event = rest.remove(0);
        proof {
            assert(event == all.skip(i)[0]);
            assert(event == all[i]);
            assert forall|k: int| 0 <= k < rest@.len() implies #[trigger] rest@[k] == all.skip(
                i + 1,
            )[k] by {
                assert(rest@[k] == all.skip(i)[k + 1]);
            }
            assert(rest@ =~= all.skip(i + 1));
            assert(all.take(i + 1).drop_last() =~= all.take(i));
            assert(all.take(i + 1).last() == all[i]);
        }
        let keep = process_event(mt, rt, &event, stats);
        if keep {
            kept.push(event);
        }
        proof {
            assert(kept@ =~= spec_kept(mt@, rt@, all.take(i + 1)));
            assert forall|g: int| stats_get(stats@, g) == spec_accumulate(
                mt@,
                rt@,
                all.take(i + 1),
                g,
                stats_get(old(stats)@, g),
            ) by {
                assert(stats_get(stats_before, g) == spec_accumulate(
                    mt@,
                    rt@,
                    all.take(i),
                    g,
                    stats_get(old(stats)@, g),
                ));
            }
        }
    }
    proof {
        assert(all.take(all.len() as int) =~= all);
    }
    kept
}

// ---------------------------------------------------------------------------
// Laws of the pipeline.
// ---------------------------------------------------------------------------

/// Wildcard exclusion applies in addition to the event's own group's rules:
/// an event the wildcard group's windows exclude is always dropped, and a
/// kept event is excluded by neither rule set.
pub proof fn lemma_wildcard_applies(
    mt: Seq<MatchEntryView>,
    rt: Seq<RemoveEntryView>,
    props: Seq<Property>,
)
    ensures
        spec_excluded(rt, -1, props) ==> spec_keep(mt, rt, props) is None,
        spec_keep(mt, rt, props) matches Some(g) ==> !spec_excluded(rt, g, props)
            && !spec_excluded(rt, -1, props),
{
}

/// With no inclusion rules at all, nothing is classified: the pipeline keeps
/// no event and leaves every group total unchanged.
pub proof fn lemma_no_rules_keeps_nothing(
    rt: Seq<RemoveEntryView>,
    events: Seq<Event>,
    g: int,
    init: int,
)
    ensures
        spec_kept(Seq::<MatchEntryView>::empty(), rt, events) =~= Seq::<Event>::empty(),
        spec_accumulate(Seq::<MatchEntryView>::empty(), rt, events, g, init) == init,
        !spec_group_touched(Seq::<MatchEntryView>::empty(), rt, events, g),
    decreases events.len(),
{
    if events.len() > 0 {
        lemma_no_rules_keeps_nothing(rt, events.drop_last(), g, init);
    }
}

/// The plain, unsaturated sum of the durations the events add to group `g`.
pub open spec fn spec_group_sum(
    mt: Seq<MatchEntryView>,
    rt: Seq<RemoveEntryView>,
    events: Seq<Event>,
    g: int,
) -> int
    decreases events.len(),
{
    if events.len() == 0 {
        0
    } else {
        spec_group_sum(mt, rt, events.drop_last(), g) + if spec_contributes(
            mt,
            rt,
            events.last(),
            g,
        ) {
            spec_duration(events.last()@)->Ok_0
        } else {
            0
        }
    }
}

/// Duration aggregation: when every computable duration lies within `bound`
/// and the events are few enough that the running total cannot reach the
/// table's saturation limits, the total accumulated for a group from an
/// empty table is exactly the sum of the durations of the events kept in
/// that group, and the reported whole hours are that sum divided by 3600,
/// rounded toward zero.
pub proof fn lemma_duration_aggregation(
    mt: Seq<MatchEntryView>,
    rt: Seq<RemoveEntryView>,
    events: Seq<Event>,
    g: int,
    bound: int,
)
    requires
        0 <= bound,
        forall|i: int|
            0 <= i < events.len() && spec_duration((#[trigger] events[i])@) is Ok ==> -bound
                <= spec_duration(events[i]@)->Ok_0 <= bound,
        events.len() * bound <= i128::MAX as int,
    ensures
        spec_accumulate(mt, rt, events, g, 0) == spec_group_sum(mt, rt, events, g),
        -(events.len() * bound) <= spec_group_sum(mt, rt, events, g) <= events.len() * bound,
        div_trunc(spec_accumulate(mt, rt, events, g, 0), 3600) == div_trunc(
            spec_group_sum(mt, rt, events, g),
            3600,
        ),
    decreases events.len(),
{
    if events.len() > 0 {
        let shorter = events.drop_last();
        assert(forall|i: int| 0 <= i < shorter.len() ==> shorter[i] == #[trigger] events[i]);
        assert((events.len() - 1) * bound + bound == events.len() * bound) by (nonlinear_arith);
        lemma_duration_aggregation(mt, rt, shorter, g, bound);
        if spec_contributes(mt, rt, events.last(), g) {
            assert(events.last() == events[events.len() - 1]);
        }
    }
}

} // verus!
