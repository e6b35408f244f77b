//! The rolling window engine: who was active in the 365 days that end on a
//! given day, and on how many of those days.

use crate::calendar::Day;
use crate::index::ActivityIndex;
use crate::set_index::{holds, lemma_same_pairs, row, rows_inhabited, SetIndex};
use crate::sorted_set::lemma_increasing_distinct;
use vstd::prelude::*;

verus! {

/// Number of calendar days in a rolling window.
pub const WINDOW_DAYS: i64 = 365;

/// Number of active days within a window from which an editor counts as a super user.
pub const SUPER_USER_DAYS: usize = 42;

/// Whether `day` lies in the window that ends on `target`: among the 364
/// days before `target`, or `target` itself.
pub open spec fn in_window(target: int, day: int) -> bool {
    target - (WINDOW_DAYS - 1) <= day <= target
}

/// The days of the window ending on `target` on which `editor` was active.
pub open spec fn active_days(by_day: Map<i64, Set<i64>>, target: i64, editor: i64) -> Set<i64> {
    Set::new(|day: i64| in_window(target as int, day as int) && holds(by_day, day, editor))
}

/// The rolling window ending on `target`: every editor active on at least
/// one of its days, with the days of the window on which they were active.
pub open spec fn rolling_window(by_day: Map<i64, Set<i64>>, target: i64) -> Map<i64, Set<i64>> {
    Map::new(
        |editor: i64|
            exists|day: i64| in_window(target as int, day as int) && holds(by_day, day, editor),
        |editor: i64| active_days(by_day, target, editor),
    )
}

/// Number of editors active on `day`.
pub open spec fn daily_active(by_day: Map<i64, Set<i64>>, day: i64) -> nat {
    row(by_day, day).len()
}

/// The editors of a window who were active on at least `min_days` of its days.
pub open spec fn at_least(window: Map<i64, Set<i64>>, min_days: nat) -> Set<i64> {
    Set::new(|editor: i64| window.dom().contains(editor) && window[editor].len() >= min_days)
}

/// The editors of the window ending on `target` who were active on at least
/// `min_days` of its days.
pub open spec fn qualifying(by_day: Map<i64, Set<i64>>, target: i64, min_days: nat) -> Set<i64> {
    at_least(rolling_window(by_day, target), min_days)
}

/// The pairs of a rolling window are the pairs of the day index whose day
/// lies in the window, turned round; and no editor of it is without a day.
pub proof fn lemma_window_pairs(by_day: Map<i64, Set<i64>>, target: i64)
    ensures
        forall|editor: i64, day: i64| #[trigger]
            holds(rolling_window(by_day, target), editor, day) <==> in_window(
                target as int,
                day as int,
            ) && holds(by_day, day, editor),
        rows_inhabited(rolling_window(by_day, target)),
{
    let window = rolling_window(by_day, target);
    assert forall|editor: i64| #[trigger] window.dom().contains(editor) implies exists|day: i64|
        window[editor].contains(day) by {
        let day = choose|day: i64|
            in_window(target as int, day as int) && holds(by_day, day, editor);
        assert(window[editor].contains(day));
    }
}

/// Number of editors of `window` with at least `min_days` days.
pub fn count_at_least(window: &SetIndex, min_days: usize) -> (count: usize)
    requires
        window.wf(),
    ensures
        count == at_least(window@, min_days as nat).len(),
{
    let n: usize = window.len();
    let mut count: usize = 0;
    let mut p: usize = 0;
    let ghost mut chosen: Set<i64> = Set::empty();
    while p < n
        invariant
            p <= n,
            n == window.keys().len(),
            window.wf(),
            chosen.finite(),
            chosen.len() == count,
            count <= p,
            forall|k: i64|
                chosen.contains(k) <==> (exists|i: int|
                    0 <= i < p && window.keys()[i] == k && window.rows()[i].len() >= min_days),
        decreases n - p,
    {
        let set = window.set_at(p);
        let ghost key = window.keys()[p as int];
        let ghost before = chosen;
        if set.len() >= min_days {
            proof {
                assert(!chosen.contains(key)) by {
                    if chosen.contains(key) {
                        let i = choose|i: int|
                            0 <= i < p && window.keys()[i] == key && window.rows()[i].len()
                                >= min_days;
                        assert(window.keys()[i] < window.keys()[p as int]);
                    }
                }
                chosen = chosen.insert(key);
            }
            count = count + 1;
        }
        proof {
            assert forall|k: i64|
                chosen.contains(k) <==> (exists|i: int|
                    0 <= i < p + 1 && window.keys()[i] == k && window.rows()[i].len()
                        >= min_days) by {
                if before.contains(k) {
                    let i = choose|i: int|
                        0 <= i < p && window.keys()[i] == k && window.rows()[i].len() >= min_days;
                    assert(0 <= i < p + 1 && window.keys()[i] == k && window.rows()[i].len()
                        >= min_days);
                }
                if chosen.contains(k) && !before.contains(k) {
                    assert(window.keys()[p as int] == k);
                    assert(window.rows()[p as int].len() >= min_days);
                }
                if exists|i: int|
                    0 <= i < p + 1 && window.keys()[i] == k && window.rows()[i].len() >= min_days {
                    let i = choose|i: int|
                        0 <= i < p + 1 && window.keys()[i] == k && window.rows()[i].len()
                            >= min_days;
                    if i < p {
                        assert(before.contains(k));
                    }
                }
            }
        }
        p = p + 1;
    }
    proof {
        window.lemma_view();
        assert(chosen =~= at_least(window@, min_days as nat)) by {
            assert forall|k: i64| chosen.contains(k) <==> at_least(
                window@,
                min_days as nat,
            ).contains(k) by {
                if chosen.contains(k) {
                    let i = choose|i: int|
                        0 <= i < n && window.keys()[i] == k && window.rows()[i].len() >= min_days;
                    assert(window@.dom().contains(window.keys()[i]));
                    lemma_increasing_distinct(window.rows()[i]);
                }
                if at_least(window@, min_days as nat).contains(k) {
                    assert(window.keys().contains(k));
                    let i = choose|i: int| 0 <= i < window.keys().len() && window.keys()[i] == k;
                    assert(window@.dom().contains(window.keys()[i]));
                    lemma_increasing_distinct(window.rows()[i]);
                    assert(0 <= i < n && window.keys()[i] == k && window.rows()[i].len()
                        >= min_days);
                }
            }
        }
    }
    count
}

impl ActivityIndex {
    /// Number of distinct editors active on `day`; zero for a day without an entry.
    pub fn daily_active_users(&self, day: Day) -> (count: usize)
        requires
            self.wf(),
        ensures
            count == daily_active(self.day_editors(), day@),
    {
        let by_day = self.day_activity();
        match by_day.position(day.number() as i64) {
            Some(i) => by_day.set_at(i).len(),
            None => 0,
        }
    }

    /// The rolling window ending on `day`.
    pub fn rolling_window(&self, day: Day) -> (window: SetIndex)
        requires
            self.wf(),
        ensures
            window.wf(),
            window@ == rolling_window(self.day_editors(), day@),
    {
        let by_day = self.day_activity();
        let target: i64 = day.number() as i64;
        let first: i64 = target - (WINDOW_DAYS - 1);
        let n: usize = by_day.len();
        let mut p: usize = by_day.first_at_least(first);
        let mut window = SetIndex::new();
        proof {
            by_day.lemma_view();
            assert forall|editor: i64, d: i64| #[trigger] holds(window@, editor, d) <==> first <= d
                <= target && holds(by_day@, d, editor) && (p >= n || d < by_day.keys()[p as int])
            by {
                if first <= d && holds(by_day@, d, editor) && p < n {
                    assert(by_day.keys().contains(d));
                    let q = choose|q: int| 0 <= q < by_day.keys().len() && by_day.keys()[q] == d;
                    if q < p {
                        assert(by_day.keys()[q] < first);
                    } else if q > p {
                        assert(by_day.keys()[p as int] < by_day.keys()[q]);
                    }
                }
            }
        }
        while p < n && by_day.key_at(p) <= target
            invariant
                p <= n,
                n == by_day.keys().len(),
                by_day.wf(),
                window.wf(),
                first == target - (WINDOW_DAYS - 1),
                forall|i: int| p <= i < n ==> first <= by_day.keys()[i],
                forall|editor: i64, d: i64| #[trigger]
                    holds(window@, editor, d) <==> first <= d <= target && holds(
                        by_day@,
                        d,
                        editor,
                    ) && (p >= n || d < by_day.keys()[p as int]),
            decreases n - p,
        {
            let d0 = by_day.key_at(p);
            let editors = by_day.set_at(p);
            let ghost before = window@;
            window.file_under_each(editors, d0);
            proof {
                by_day.lemma_view();
                assert forall|editor: i64, d: i64| #[trigger] holds(window@, editor, d) <==> first
                    <= d <= target && holds(by_day@, d, editor) && (p + 1 >= n || d
                    < by_day.keys()[p + 1]) by {
                    assert(holds(before, editor, d) <==> first <= d <= target && holds(
                        by_day@,
                        d,
                        editor,
                    ) && d < d0);
                    if p + 1 < n {
                        assert(d0 < by_day.keys()[p + 1]);
                    }
                    assert(editors@ == row(by_day@, d0));
                    assert(first <= d0 <= target);
                    if holds(by_day@, d, editor) && d != d0 {
                        assert(by_day.keys().contains(d));
                        let q = choose|q: int|
                            0 <= q < by_day.keys().len() && by_day.keys()[q] == d;
                        if q < p {
                            assert(by_day.keys()[q] < by_day.keys()[p as int]);
                        } else if p + 1 < n {
                            if q > p + 1 {
                                assert(by_day.keys()[p + 1] < by_day.keys()[q]);
                            }
                        }
                    }
                }
            }
            p = p + 1;
        }
        proof {
            let goal = rolling_window(by_day@, target);
            lemma_window_pairs(by_day@, target);
            window.lemma_view();
            assert forall|editor: i64, d: i64| holds(window@, editor, d) <==> holds(
                goal,
                editor,
                d,
            ) by {}
            lemma_same_pairs(window@, goal);
        }
        window
    }

    /// Number of editors of the window ending on `day` who were active on at
    /// least `threshold` of its days.
    pub fn super_user_count(&self, day: Day, threshold: usize) -> (count: usize)
        requires
            self.wf(),
        ensures
            count == qualifying(self.day_editors(), day@, threshold as nat).len(),
    {
        let window = self.rolling_window(day);
        count_at_least(&window, threshold)
    }
}

} // verus!
