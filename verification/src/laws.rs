//! Laws of aggregation and of the rolling window, stated over the models
//! that the contracts of the library use.

use crate::index::{folded_days, folded_editors, ActivityIndex, EditEvent};
use crate::names::{join_names, Sighting};
use crate::set_index::{
    holds, join, lemma_add_pair_holds, lemma_join_holds, lemma_same_pairs, rows_inhabited,
    SetIndex,
};
use crate::sorted_set::lemma_increasing_unique;
use crate::window::{active_days, in_window, rolling_window, WINDOW_DAYS};
use vstd::prelude::*;

verus! {

/// Merging activity is commutative and associative, and merging with an
/// index of no events changes nothing.
pub proof fn lemma_join_laws(a: Map<i64, Set<i64>>, b: Map<i64, Set<i64>>, c: Map<i64, Set<i64>>)
    ensures
        join(a, b) == join(b, a),
        join(join(a, b), c) == join(a, join(b, c)),
        join(a, Map::empty()) == a,
        join(Map::empty(), a) == a,
{
    assert(join(a, b) =~= join(b, a)) by {
        assert forall|k: i64| #[trigger] join(a, b).dom().contains(k) implies join(a, b)[k]
            =~= join(b, a)[k] by {}
    }
    assert(join(join(a, b), c) =~= join(a, join(b, c))) by {
        assert forall|k: i64| #[trigger] join(join(a, b), c).dom().contains(k) implies join(
            join(a, b),
            c,
        )[k] =~= join(a, join(b, c))[k] by {}
    }
    assert(join(a, Map::empty()) =~= a) by {
        assert forall|k: i64| #[trigger] a.dom().contains(k) implies join(a, Map::empty())[k]
            =~= a[k] by {}
    }
    assert(join(Map::empty(), a) =~= a) by {
        assert forall|k: i64| #[trigger] a.dom().contains(k) implies join(Map::empty(), a)[k]
            =~= a[k] by {}
    }
}

/// Merging names with an index of no events changes nothing, whichever side is empty.
pub proof fn lemma_join_names_identity(a: Map<i64, Sighting>)
    ensures
        join_names(a, Map::empty()) == a,
        join_names(Map::empty(), a) == a,
{
    assert(join_names(a, Map::empty()) =~= a);
    assert(join_names(Map::empty(), a) =~= a);
}

/// A way of sharing out the aggregation of events: a worker folds a run of
/// events by itself, or two partial results are merged.
pub enum Reduction {
    Worker(Seq<EditEvent>),
    Merged(Box<Reduction>, Box<Reduction>),
}

impl Reduction {
    /// All events that the workers of the reduction fold, worker after worker.
    pub open spec fn events(self) -> Seq<EditEvent>
        decreases self,
    {
        match self {
            Reduction::Worker(events) => events,
            Reduction::Merged(left, right) => left.events() + right.events(),
        }
    }

    /// Each editor's days as the reduction computes them.
    pub open spec fn editor_days(self) -> Map<i64, Set<i64>>
        decreases self,
    {
        match self {
            Reduction::Worker(events) => folded_days(events),
            Reduction::Merged(left, right) => join(left.editor_days(), right.editor_days()),
        }
    }

    /// Each day's editors as the reduction computes them.
    pub open spec fn day_editors(self) -> Map<i64, Set<i64>>
        decreases self,
    {
        match self {
            Reduction::Worker(events) => folded_editors(events),
            Reduction::Merged(left, right) => join(left.day_editors(), right.day_editors()),
        }
    }
}

/// Whether one of `events` is an edit by `editor` on `day`.
pub open spec fn occurs(events: Seq<EditEvent>, editor: i64, day: i64) -> bool {
    exists|i: int|
        0 <= i < events.len() && (#[trigger] events[i]).editor_key() == editor
            && events[i].day_key() == day
}

/// Folding files exactly the pairs of editor and day that occur among the events.
pub proof fn lemma_folded_pairs(events: Seq<EditEvent>)
    ensures
        forall|editor: i64, day: i64| #[trigger]
            holds(folded_days(events), editor, day) <==> occurs(events, editor, day),
        forall|editor: i64, day: i64| #[trigger]
            holds(folded_editors(events), day, editor) <==> occurs(events, editor, day),
        rows_inhabited(folded_days(events)),
        rows_inhabited(folded_editors(events)),
    decreases events.len(),
{
    if events.len() == 0 {
    } else {
        let head = events.drop_last();
        let last = events.last();
        lemma_folded_pairs(head);
        lemma_add_pair_holds(folded_days(head), last.editor_key(), last.day_key());
        lemma_add_pair_holds(folded_editors(head), last.day_key(), last.editor_key());
        assert forall|editor: i64, day: i64|
            occurs(events, editor, day) <==> occurs(head, editor, day) || (last.editor_key()
                == editor && last.day_key() == day) by {
            if occurs(events, editor, day) {
                let i = choose|i: int|
                    0 <= i < events.len() && (#[trigger] events[i]).editor_key() == editor
                        && events[i].day_key() == day;
                if i < head.len() {
                    assert(head[i] == events[i]);
                }
            }
            if occurs(head, editor, day) {
                let i = choose|i: int|
                    0 <= i < head.len() && (#[trigger] head[i]).editor_key() == editor
                        && head[i].day_key() == day;
                assert(events[i] == head[i]);
            }
            if last.editor_key() == editor && last.day_key() == day {
                assert(events[events.len() - 1] == last);
            }
        }
        assert forall|editor: i64, day: i64| #[trigger]
            holds(folded_days(events), editor, day) <==> occurs(events, editor, day) by {
            assert(holds(folded_days(head), editor, day) <==> occurs(head, editor, day));
        }
        assert forall|editor: i64, day: i64| #[trigger]
            holds(folded_editors(events), day, editor) <==> occurs(events, editor, day) by {
            assert(holds(folded_editors(head), day, editor) <==> occurs(head, editor, day));
        }
    }
}

/// A reduction files exactly the pairs of editor and day that occur among its events.
pub proof fn lemma_reduced_pairs(plan: Reduction)
    ensures
        forall|editor: i64, day: i64| #[trigger]
            holds(plan.editor_days(), editor, day) <==> occurs(plan.events(), editor, day),
        forall|editor: i64, day: i64| #[trigger]
            holds(plan.day_editors(), day, editor) <==> occurs(plan.events(), editor, day),
        rows_inhabited(plan.editor_days()),
        rows_inhabited(plan.day_editors()),
    decreases plan,
{
    match plan {
        Reduction::Worker(events) => {
            lemma_folded_pairs(events);
        },
        Reduction::Merged(left, right) => {
            lemma_reduced_pairs(*left);
            lemma_reduced_pairs(*right);
            lemma_join_holds(left.editor_days(), right.editor_days());
            lemma_join_holds(left.day_editors(), right.day_editors());
            let a = left.events();
            let b = right.events();
            assert forall|editor: i64, day: i64|
                occurs(a + b, editor, day) <==> occurs(a, editor, day) || occurs(
                    b,
                    editor,
                    day,
                ) by {
                if occurs(a + b, editor, day) {
                    let i = choose|i: int|
                        0 <= i < (a + b).len() && (#[trigger] (a + b)[i]).editor_key() == editor
                            && (a + b)[i].day_key() == day;
                    if i < a.len() {
                        assert(a[i] == (a + b)[i]);
                    } else {
                        assert(b[i - a.len()] == (a + b)[i]);
                    }
                }
                if occurs(a, editor, day) {
                    let i = choose|i: int|
                        0 <= i < a.len() && (#[trigger] a[i]).editor_key() == editor
                            && a[i].day_key() == day;
                    assert((a + b)[i] == a[i]);
                }
                if occurs(b, editor, day) {
                    let i = choose|i: int|
                        0 <= i < b.len() && (#[trigger] b[i]).editor_key() == editor
                            && b[i].day_key() == day;
                    assert((a + b)[a.len() + i] == b[i]);
                }
            }
            assert forall|editor: i64, day: i64| #[trigger]
                holds(plan.editor_days(), editor, day) <==> occurs(plan.events(), editor, day) by {
                assert(holds(left.editor_days(), editor, day) <==> occurs(a, editor, day));
                assert(holds(right.editor_days(), editor, day) <==> occurs(b, editor, day));
            }
            assert forall|editor: i64, day: i64| #[trigger]
                holds(plan.day_editors(), day, editor) <==> occurs(plan.events(), editor, day) by {
                assert(holds(left.day_editors(), day, editor) <==> occurs(a, editor, day));
                assert(holds(right.day_editors(), day, editor) <==> occurs(b, editor, day));
            }
        },
    }
}

/// However a set of events is shared out among workers, and in whatever
/// order their partial results are merged, each editor's days and each day's
/// editors come out as if one worker had folded all the events.
pub proof fn lemma_partition_independent(plan: Reduction, events: Seq<EditEvent>)
    requires
        plan.events().to_multiset() == events.to_multiset(),
    ensures
        plan.editor_days() == folded_days(events),
        plan.day_editors() == folded_editors(events),
{
    let shared = plan.events();
    lemma_reduced_pairs(plan);
    lemma_folded_pairs(events);
    shared.to_multiset_ensures();
    events.to_multiset_ensures();
    assert forall|editor: i64, day: i64| occurs(shared, editor, day) <==> occurs(
        events,
        editor,
        day,
    ) by {
        if occurs(shared, editor, day) {
            let i = choose|i: int|
                0 <= i < shared.len() && (#[trigger] shared[i]).editor_key() == editor
                    && shared[i].day_key() == day;
            assert(shared.contains(shared[i]));
            assert(events.to_multiset().count(shared[i]) > 0);
            assert(events.contains(shared[i]));
            let j = choose|j: int| 0 <= j < events.len() && events[j] == shared[i];
            assert(events[j].editor_key() == editor);
        }
        if occurs(events, editor, day) {
            let i = choose|i: int|
                0 <= i < events.len() && (#[trigger] events[i]).editor_key() == editor
                    && events[i].day_key() == day;
            assert(events.contains(events[i]));
            assert(shared.to_multiset().count(events[i]) > 0);
            assert(shared.contains(events[i]));
            let j = choose|j: int| 0 <= j < shared.len() && shared[j] == events[i];
            assert(shared[j].editor_key() == editor);
        }
    }
    assert forall|editor: i64, day: i64|
        holds(plan.editor_days(), editor, day) <==> holds(folded_days(events), editor, day) by {
        assert(occurs(shared, editor, day) <==> occurs(events, editor, day));
    }
    lemma_same_pairs(plan.editor_days(), folded_days(events));
    assert forall|day: i64, editor: i64|
        holds(plan.day_editors(), day, editor) <==> holds(folded_editors(events), day, editor) by {
        assert(occurs(shared, editor, day) <==> occurs(events, editor, day));
    }
    lemma_same_pairs(plan.day_editors(), folded_editors(events));
}

/// The days from `first` on, `count` of them.
pub open spec fn day_run(first: int, count: nat) -> Set<i64> {
    Set::new(|day: i64| first <= day < first + count)
}

/// A run of `count` days is finite and holds at most `count` days.
pub proof fn lemma_day_run(first: int, count: nat)
    ensures
        day_run(first, count).finite(),
        day_run(first, count).len() <= count,
    decreases count,
{
    if count == 0 {
        assert(day_run(first, count) =~= Set::<i64>::empty());
    } else {
        let shorter = (count - 1) as nat;
        lemma_day_run(first, shorter);
        let top = first + count - 1;
        if i64::MIN <= top <= i64::MAX {
            assert(day_run(first, count) =~= day_run(first, shorter).insert(top as i64));
        } else {
            assert(day_run(first, count) =~= day_run(first, shorter));
        }
    }
}

/// An editor's active days within a window are finite and at most 365.
pub proof fn lemma_window_bounded(by_day: Map<i64, Set<i64>>, target: i64, editor: i64)
    ensures
        active_days(by_day, target, editor).finite(),
        active_days(by_day, target, editor).len() <= WINDOW_DAYS,
{
    let run = day_run(target - (WINDOW_DAYS - 1), WINDOW_DAYS as nat);
    lemma_day_run(target - (WINDOW_DAYS - 1), WINDOW_DAYS as nat);
    assert(active_days(by_day, target, editor).subset_of(run));
    vstd::set_lib::lemma_len_subset(active_days(by_day, target, editor), run);
}

/// As the end of the window advances from `earlier` to `later`, an editor's
/// count of active days does not fall, so long as none of their active days
/// drops out at the window's start.
pub proof fn lemma_window_monotone(
    by_day: Map<i64, Set<i64>>,
    editor: i64,
    earlier: i64,
    later: i64,
)
    requires
        earlier <= later,
        forall|day: i64|
            in_window(earlier as int, day as int) && !in_window(later as int, day as int)
                ==> !#[trigger] holds(by_day, day, editor),
    ensures
        active_days(by_day, earlier, editor).len() <= active_days(by_day, later, editor).len(),
        active_days(by_day, later, editor).len() <= WINDOW_DAYS,
{
    lemma_window_bounded(by_day, later, editor);
    assert(active_days(by_day, earlier, editor).subset_of(active_days(by_day, later, editor)));
    vstd::set_lib::lemma_len_subset(
        active_days(by_day, earlier, editor),
        active_days(by_day, later, editor),
    );
}

/// Asking twice for the window that ends on one day gives one answer: two
/// results that meet the contract of the query hold the same editors with
/// the same days, in the same order.
pub proof fn lemma_window_repeatable(
    index: &ActivityIndex,
    target: i64,
    first: &SetIndex,
    second: &SetIndex,
)
    requires
        first.wf(),
        second.wf(),
        first@ == rolling_window(index.day_editors(), target),
        second@ == rolling_window(index.day_editors(), target),
    ensures
        first@ == second@,
        first.keys() == second.keys(),
        first.rows() == second.rows(),
{
    first.lemma_view();
    second.lemma_view();
    lemma_increasing_unique(first.keys(), second.keys());
    assert(first.rows() =~= second.rows()) by {
        assert forall|i: int| 0 <= i < first.rows().len() implies first.rows()[i]
            == second.rows()[i] by {
            assert(first@[first.keys()[i]] == first.rows()[i].to_set());
            assert(second@[second.keys()[i]] == second.rows()[i].to_set());
            lemma_increasing_unique(first.rows()[i], second.rows()[i]);
        }
    }
}

} // verus!
