//! The rows of the two reports: totals for each calendar day, and for each
//! day the editors whose rolling window holds enough active days.

use crate::calendar::{calendar_text, Day, DAY_MAX, DAY_MIN, DAY_MONTH_PATTERN};
use crate::error::Error;
use crate::index::ActivityIndex;
use crate::set_index::holds;
use crate::sorted_set::{ascending, increasing, lemma_increasing_distinct, SortedSet};
use crate::window::{
    active_days, count_at_least, daily_active, lemma_window_pairs, qualifying, rolling_window,
    SUPER_USER_DAYS,
};
use vstd::prelude::*;
use vstd::string::StringExecFns;

verus! {

/// The texts in `parts`, one after the other with a comma between neighbours.
pub open spec fn comma_joined(parts: Seq<Seq<char>>) -> Seq<char>
    decreases parts.len(),
{
    if parts.len() == 0 {
        Seq::empty()
    } else if parts.len() == 1 {
        parts[0]
    } else {
        comma_joined(parts.drop_last()) + seq![','] + parts.last()
    }
}

/// What each string of `parts` holds.
pub open spec fn texts(parts: Seq<String>) -> Seq<Seq<char>> {
    Seq::new(parts.len(), |i: int| parts[i]@)
}

/// Joins `parts` with commas.
pub fn join_with_commas(parts: &Vec<String>) -> (text: String)
    ensures
        text@ == comma_joined(texts(parts@)),
{
    let mut text = String::new();
    let n: usize = parts.len();
    let mut i: usize = 0;
    assert(texts(parts@).take(0) =~= Seq::<Seq<char>>::empty());
    while i < n
        invariant
            i <= n,
            n == parts@.len(),
            text@ == comma_joined(texts(parts@).take(i as int)),
        decreases n - i,
    {
        let ghost before = text@;
        if i > 0 {
            text.append(",");
            proof {
                reveal_strlit(",");
                assert(","@ =~= seq![',']);
            }
        }
        text.append(parts[i].as_str());
        proof {
            let head = texts(parts@).take(i as int);
            let next = texts(parts@).take(i + 1);
            assert(next.drop_last() =~= head);
            assert(next.last() == parts@[i as int]@);
            if i == 0 {
                assert(before =~= Seq::<char>::empty());
                assert(text@ =~= next[0]);
            } else {
                assert(text@ =~= before + seq![','] + next.last());
            }
        }
        i = i + 1;
    }
    proof {
        assert(texts(parts@).take(n as int) =~= texts(parts@));
    }
    text
}

/// Day of the month and month of each day in `days`.
pub open spec fn day_month_texts(days: Seq<i64>) -> Seq<Seq<char>> {
    Seq::new(days.len(), |i: int| calendar_text(days[i] as i32, DAY_MONTH_PATTERN@))
}

/// The list of `days` as a report shows it: day of the month and month of
/// each, joined by commas.
pub open spec fn day_list_text(days: Seq<i64>) -> Seq<char> {
    comma_joined(day_month_texts(days))
}

/// Writes the days in `days`, in ascending order, as day of the month and
/// month, joined by commas.
pub fn day_list(days: &SortedSet) -> (text: String)
    requires
        days.wf(),
        forall|d: i64| days@.contains(d) ==> DAY_MIN <= d <= DAY_MAX,
    ensures
        text@ == day_list_text(days.elements()),
        text@ == day_list_text(ascending(days@)),
{
    let n: usize = days.len();
    let mut parts: Vec<String> = Vec::new();
    let mut i: usize = 0;
    while i < n
        invariant
            i <= n,
            n == days.elements().len(),
            forall|d: i64| days@.contains(d) ==> DAY_MIN <= d <= DAY_MAX,
            parts@.len() == i,
            forall|k: int|
                0 <= k < i ==> (#[trigger] parts@[k])@ == calendar_text(
                    days.elements()[k] as i32,
                    DAY_MONTH_PATTERN@,
                ),
        decreases n - i,
    {
        let key: i64 = days.get(i);
        assert(days@.contains(days.elements()[i as int]));
        let day = Day::from_number(key as i32).unwrap();
        parts.push(day.day_month_text());
        i = i + 1;
    }
    proof {
        assert(texts(parts@) =~= day_month_texts(days.elements()));
        days.lemma_size();
    }
    join_with_commas(&parts)
}

/// One row of the per-user report: an editor whose window ending on `day`
/// holds enough active days.
#[derive(Clone, Debug)]
pub struct UserRow {
    /// The day on which the window ends.
    pub day: Day,
    pub editor_id: u32,
    /// Number of distinct days of the window on which the editor was active.
    pub day_count: usize,
    pub latest_name: String,
    /// Whether `day_count` reaches the super user threshold.
    pub is_super_user: bool,
    /// The active days of the window in ascending order, each as day of the
    /// month and month, joined by commas.
    pub day_list: String,
}

impl UserRow {
    /// Whether the row says of its editor and its day what `index` holds.
    pub open spec fn describes(&self, index: &ActivityIndex) -> bool {
        let days = active_days(index.day_editors(), self.day@, self.editor_id as i64);
        &&& self.day_count == days.len()
        &&& self.latest_name@ == index.latest_names()[self.editor_id as i64].1
        &&& self.is_super_user == (days.len() >= SUPER_USER_DAYS)
        &&& self.day_list@ == day_list_text(ascending(days))
    }

    /// The label of the super user column.
    pub fn super_user_label(&self) -> (label: &'static str)
        ensures
            label@ == if self.is_super_user {
                "yes"@
            } else {
                "no"@
            },
    {
        if self.is_super_user {
            "yes"
        } else {
            "no"
        }
    }
}

/// The totals of one calendar day.
#[derive(Clone, Copy, Debug, PartialEq, Eq, Structural)]
pub struct DayTotals {
    pub day: Day,
    /// Number of editors active on the day itself.
    pub active_users: usize,
    /// Number of editors active on at least one day of the window ending on the day.
    pub rolling_users: usize,
    /// Number of editors active on enough days of that window to count as super users.
    pub super_users: usize,
}

impl DayTotals {
    /// Whether the row says of its day what `index` holds.
    pub open spec fn describes(&self, index: &ActivityIndex) -> bool {
        let by_day = index.day_editors();
        let day = self.day@;
        &&& self.active_users == daily_active(by_day, day)
        &&& self.rolling_users == rolling_window(by_day, day).dom().len()
        &&& self.super_users == qualifying(by_day, day, SUPER_USER_DAYS as nat).len()
    }
}

/// Whether `rows` lists, in ascending order of their ids and each once, the
/// editors whose window ending on `day` holds at least `min_days` active
/// days, and says of each what `index` holds.
pub open spec fn lists_qualifying(
    rows: Seq<UserRow>,
    index: &ActivityIndex,
    day: Day,
    min_days: nat,
) -> bool {
    let wanted = qualifying(index.day_editors(), day@, min_days);
    &&& forall|i: int|
        0 <= i < rows.len() ==> (#[trigger] rows[i]).day == day && rows[i].describes(index)
            && wanted.contains(rows[i].editor_id as i64)
    &&& forall|i: int, j: int| 0 <= i < j < rows.len() ==> rows[i].editor_id < rows[j].editor_id
    &&& forall|editor: i64| #[trigger]
        wanted.contains(editor) ==> exists|i: int|
            0 <= i < rows.len() && (#[trigger] rows[i]).editor_id as i64 == editor
}

/// The editors listed for a threshold are as many as the editors counted
/// for it: with the super user threshold, the super user count of a day is
/// the number of rows that the per-user listing of that day holds.
pub proof fn lemma_threshold_consistency(
    rows: Seq<UserRow>,
    index: &ActivityIndex,
    day: Day,
    min_days: nat,
)
    requires
        lists_qualifying(rows, index, day, min_days),
    ensures
        qualifying(index.day_editors(), day@, min_days).finite(),
        rows.len() == qualifying(index.day_editors(), day@, min_days).len(),
{
    let wanted = qualifying(index.day_editors(), day@, min_days);
    let ids = Seq::new(rows.len(), |i: int| rows[i].editor_id as i64);
    assert(increasing(ids));
    lemma_increasing_distinct(ids);
    assert(ids.to_set() =~= wanted) by {
        assert forall|editor: i64| ids.to_set().contains(editor) <==> wanted.contains(editor) by {
            if ids.contains(editor) {
                let i = choose|i: int| 0 <= i < ids.len() && ids[i] == editor;
                assert(wanted.contains(rows[i].editor_id as i64));
            }
            if wanted.contains(editor) {
                let i = choose|i: int|
                    0 <= i < rows.len() && (#[trigger] rows[i]).editor_id as i64 == editor;
                assert(ids[i] == editor);
            }
        }
    }
}

/// What a caller chooses for the per-user report.
#[derive(Clone, Copy, Debug)]
pub struct ReportOptions {
    /// Least number of active days within the window for an editor to be listed.
    pub min_edit_days: u32,
    /// First day of the report; the first observed day where absent.
    pub start_date: Option<Day>,
    /// Last day of the report; the last observed day where absent.
    pub end_date: Option<Day>,
    /// Least length of the span, met by moving its first day earlier.
    pub min_num_days: Option<u32>,
}

impl ReportOptions {
    /// Whether the chosen days lie within the calendar.
    pub open spec fn valid(&self) -> bool {
        &&& self.start_date matches Some(day) ==> day.valid()
        &&& self.end_date matches Some(day) ==> day.valid()
    }
}

impl Default for ReportOptions {
    fn default() -> (options: ReportOptions)
        ensures
            options.min_edit_days == 20,
            options.start_date is None,
            options.end_date is None,
            options.min_num_days == Some(3u32),
    {
        ReportOptions { min_edit_days: 20, start_date: None, end_date: None, min_num_days: Some(3) }
    }
}

/// The day `val`, or the bound that it lies beyond: `max_val` where it is
/// later than that, else `min_val` where it is earlier.
pub fn clamp(val: Day, min_val: Day, max_val: Day) -> (bounded: Day)
    ensures
        bounded@ == clamped(val@ as int, min_val@ as int, max_val@ as int),
        bounded == if val@ > max_val@ {
            max_val
        } else if val@ < min_val@ {
            min_val
        } else {
            val
        },
{
    if val.number() > max_val.number() {
        max_val
    } else if val.number() < min_val.number() {
        min_val
    } else {
        val
    }
}

/// `val`, or the bound that it lies beyond.
pub open spec fn clamped(val: int, min_val: int, max_val: int) -> int {
    if val > max_val {
        max_val
    } else if val < min_val {
        min_val
    } else {
        val
    }
}

/// The span of the per-user report, as the numbers of its first and last
/// day. The requested bounds default to the observed range and are clamped
/// to it; a span that is then shorter than `min_num_days` has its first day
/// moved earlier by that many days, beyond the observed range if need be.
pub open spec fn span_of(
    observed: (int, int),
    start: Option<int>,
    end: Option<int>,
    min_num_days: Option<u32>,
) -> Result<(int, int), Error> {
    let first = clamped(
        match start {
            Some(day) => day,
            None => observed.0,
        },
        observed.0,
        observed.1,
    );
    let last = clamped(
        match end {
            Some(day) => day,
            None => observed.1,
        },
        observed.0,
        observed.1,
    );
    if first > last {
        Err(Error::ConfigurationRange)
    } else {
        match min_num_days {
            Some(least) => if last - first < least {
                if first - least < DAY_MIN {
                    Err(Error::ConfigurationRange)
                } else {
                    Ok((first - least, last))
                }
            } else {
                Ok((first, last))
            },
            None => Ok((first, last)),
        }
    }
}

/// The numbers of an optional day.
pub open spec fn number_of(day: Option<Day>) -> Option<int> {
    match day {
        Some(day) => Some(day@ as int),
        None => None,
    }
}

/// Settles the span of the per-user report. It fails where the clamped span
/// is inverted, and where moving its first day earlier leaves the calendar.
pub fn resolve_span(
    observed: (Day, Day),
    start: Option<Day>,
    end: Option<Day>,
    min_num_days: Option<u32>,
) -> (span: Result<(Day, Day), Error>)
    requires
        observed.0.valid(),
        observed.1.valid(),
        start matches Some(day) ==> day.valid(),
        end matches Some(day) ==> day.valid(),
    ensures
        match span_of(
            (observed.0@ as int, observed.1@ as int),
            number_of(start),
            number_of(end),
            min_num_days,
        ) {
            Ok((first, last)) => span matches Ok((a, b)) && a@ == first && b@ == last && a.valid()
                && b.valid(),
            Err(e) => span == Err::<(Day, Day), Error>(e),
        },
{
    let first = clamp(
        match start {
            Some(day) => day,
            None => observed.0,
        },
        observed.0,
        observed.1,
    );
    let last = clamp(
        match end {
            Some(day) => day,
            None => observed.1,
        },
        observed.0,
        observed.1,
    );
    if first.number() > last.number() {
        return Err(Error::ConfigurationRange);
    }
    match min_num_days {
        Some(least) => {
            if (last.number() as i64 - first.number() as i64) < least as i64 {
                match first.minus_days(least) {
                    Some(earlier) => Ok((earlier, last)),
                    None => Err(Error::ConfigurationRange),
                }
            } else {
                Ok((first, last))
            }
        },
        None => Ok((first, last)),
    }
}

impl ActivityIndex {
    /// The first and the last day with an edit.
    pub fn observed_range(&self) -> (range: Result<(Day, Day), Error>)
        requires
            self.wf(),
        ensures
            range is Err <==> self.day_editors().dom() == Set::<i64>::empty(),
            range matches Err(e) ==> e == Error::EmptyInput,
            range matches Ok((first, last)) ==> first.valid() && last.valid()
                && self.bounds_observed(first@, last@),
    {
        let by_day = self.day_activity();
        let n: usize = by_day.len();
        proof {
            by_day.lemma_view();
            self.lemma_wf();
        }
        if n == 0 {
            assert(by_day@.dom() =~= Set::<i64>::empty());
            return Err(Error::EmptyInput);
        }
        let low: i64 = by_day.key_at(0);
        let high: i64 = by_day.key_at(n - 1);
        proof {
            assert(by_day@.dom().contains(by_day.keys()[0]));
            assert(by_day@.dom().contains(by_day.keys()[n - 1]));
            assert forall|d: i64| #[trigger] by_day@.dom().contains(d) implies low <= d <= high by {
                assert(by_day.keys().contains(d));
                let i = choose|i: int| 0 <= i < by_day.keys().len() && by_day.keys()[i] == d;
                if 0 < i {
                    assert(by_day.keys()[0] < by_day.keys()[i]);
                }
                if i < n - 1 {
                    assert(by_day.keys()[i] < by_day.keys()[n - 1]);
                }
            }
        }
        let first = Day::from_number(low as i32).unwrap();
        let last = Day::from_number(high as i32).unwrap();
        Ok((first, last))
    }

    /// The totals of `day`.
    pub fn day_totals(&self, day: Day) -> (row: DayTotals)
        requires
            self.wf(),
        ensures
            row.day == day,
            row.describes(self),
    {
        let active_users = self.daily_active_users(day);
        let window = self.rolling_window(day);
        let rolling_users = window.len();
        let super_users = count_at_least(&window, SUPER_USER_DAYS);
        DayTotals { day, active_users, rolling_users, super_users }
    }

    /// The editors of the window ending on `day` who were active on at least
    /// `min_days` of its days, in ascending order of their ids.
    pub fn qualifying_users(&self, day: Day, min_days: usize) -> (rows: Vec<UserRow>)
        requires
            self.wf(),
        ensures
            lists_qualifying(rows@, self, day, min_days as nat),
            rows@.len() == qualifying(self.day_editors(), day@, min_days as nat).len(),
    {
        let window = self.rolling_window(day);
        let names = self.name_index();
        let n: usize = window.len();
        let ghost by_day = self.day_editors();
        let ghost target = day@;
        let ghost wanted = qualifying(by_day, target, min_days as nat);
        let mut rows: Vec<UserRow> = Vec::new();
        let mut p: usize = 0;
        proof {
            window.lemma_view();
            self.lemma_wf();
            lemma_window_pairs(by_day, target);
        }
        while p < n
            invariant
                p <= n,
                n == window.keys().len(),
                self.wf(),
                window.wf(),
                names.wf(),
                names@ == self.latest_names(),
                by_day == self.day_editors(),
                target == day@,
                window@ == rolling_window(by_day, target),
                wanted == qualifying(by_day, target, min_days as nat),
                forall|i: int|
                    0 <= i < rows@.len() ==> (#[trigger] rows@[i]).day == day
                        && rows@[i].describes(self) && wanted.contains(rows@[i].editor_id as i64)
                        && (p < n ==> (rows@[i].editor_id as i64) < window.keys()[p as int]),
                forall|i: int, j: int|
                    0 <= i < j < rows@.len() ==> rows@[i].editor_id < rows@[j].editor_id,
                forall|q: int|
                    0 <= q < p && wanted.contains(#[trigger] window.keys()[q]) ==> exists|i: int|
                        0 <= i < rows@.len() && (#[trigger] rows@[i]).editor_id as i64
                            == window.keys()[q],
            decreases n - p,
        {
            let set = window.set_at(p);
            let editor: i64 = window.key_at(p);
            let ghost earlier = rows@;
            proof {
                window.lemma_view();
                self.lemma_wf();
                lemma_window_pairs(by_day, target);
                set.lemma_size();
                assert(window@.dom().contains(window.keys()[p as int]));
                assert(set@ == active_days(by_day, target, editor));
                let some_day = set.elements()[0];
                assert(set@.contains(some_day));
                assert(holds(by_day, some_day, editor));
                assert(holds(self.editor_days(), editor, some_day));
                assert(self.editor_days().dom().contains(editor));
                assert(self.latest_names().dom().contains(editor));
                assert forall|d: i64| set@.contains(d) implies DAY_MIN <= d <= DAY_MAX by {
                    assert(holds(by_day, d, editor));
                    assert(by_day.dom().contains(d));
                }
                if p + 1 < n {
                    assert(window.keys()[p as int] < window.keys()[p + 1]);
                }
            }
            if set.len() >= min_days {
                let (_, name) = names.get(editor).unwrap();
                let row = UserRow {
                    day,
                    editor_id: editor as u32,
                    day_count: set.len(),
                    latest_name: name.clone(),
                    is_super_user: set.len() >= SUPER_USER_DAYS,
                    day_list: day_list(set),
                };
                rows.push(row);
                proof {
                    assert(rows@[earlier.len() as int].editor_id as i64 == editor);
                    assert forall|i: int, j: int|
                        0 <= i < j < rows@.len() implies rows@[i].editor_id
                        < rows@[j].editor_id by {
                        assert(rows@[i] == earlier[i]);
                        if j < earlier.len() {
                            assert(rows@[j] == earlier[j]);
                        }
                    }
                }
            }
            proof {
                assert forall|i: int| 0 <= i < rows@.len() implies (#[trigger] rows@[i]).day == day
                    && rows@[i].describes(self) && wanted.contains(rows@[i].editor_id as i64) && (p
                    + 1 < n ==> (rows@[i].editor_id as i64) < window.keys()[p + 1]) by {
                    if i < earlier.len() {
                        assert(rows@[i] == earlier[i]);
                    }
                }
                assert forall|q: int|
                    0 <= q < p + 1 && wanted.contains(#[trigger] window.keys()[q]) implies exists|
                    i: int,
                |
                    0 <= i < rows@.len() && (#[trigger] rows@[i]).editor_id as i64
                        == window.keys()[q] by {
                    if q < p {
                        let i = choose|i: int|
                            0 <= i < earlier.len() && (#[trigger] earlier[i]).editor_id as i64
                                == window.keys()[q];
                        assert(rows@[i] == earlier[i]);
                    } else {
                        assert(rows@[earlier.len() as int].editor_id as i64 == editor);
                    }
                }
            }
            p = p + 1;
        }
        proof {
            window.lemma_view();
            assert forall|editor: i64| #[trigger] wanted.contains(editor) implies exists|i: int|
                0 <= i < rows@.len() && (#[trigger] rows@[i]).editor_id as i64 == editor by {
                assert(window.keys().contains(editor));
                let q = choose|q: int| 0 <= q < window.keys().len() && window.keys()[q] == editor;
                assert(wanted.contains(window.keys()[q]));
            }
            lemma_threshold_consistency(rows@, self, day, min_days as nat);
        }
        rows
    }

    /// The per-day report: the totals of every calendar day from the first
    /// to the last day with an edit, days without edits included.
    pub fn per_day_report(&self) -> (report: Result<Vec<DayTotals>, Error>)
        requires
            self.wf(),
        ensures
            report is Err <==> self.day_editors().dom() == Set::<i64>::empty(),
            report matches Err(e) ==> e == Error::EmptyInput,
            report matches Ok(rows) ==> rows@.len() > 0 && self.bounds_observed(
                rows@[0].day@,
                rows@[rows@.len() - 1].day@,
            ) && forall|i: int|
                0 <= i < rows@.len() ==> (#[trigger] rows@[i]).describes(self) && rows@[i].day@
                    == rows@[0].day@ + i,
    {
        let (first, last) = match self.observed_range() {
            Ok(range) => range,
            Err(e) => {
                return Err(e);
            },
        };
        let mut rows: Vec<DayTotals> = Vec::new();
        let mut number: i32 = first.number();
        let end: i32 = last.number();
        while number <= end
            invariant
                self.wf(),
                DAY_MIN <= first@ <= number <= end + 1,
                end <= DAY_MAX,
                rows@.len() == number - first@,
                forall|i: int|
                    0 <= i < rows@.len() ==> (#[trigger] rows@[i]).describes(self)
                        && rows@[i].day@ == first@ + i,
            decreases end + 1 - number,
        {
            let day = Day::from_number(number).unwrap();
            rows.push(self.day_totals(day));
            number = number + 1;
        }
        proof {
            assert(rows@[0].day@ == first@);
            assert(rows@[rows@.len() - 1].day@ == last@);
        }
        Ok(rows)
    }

    /// The per-user report for the days from `start` to `end`: for each day
    /// in turn, the editors whose window ending on it holds at least
    /// `min_edit_days` active days, in ascending order of their ids.
    pub fn per_user_report(&self, start: Day, end: Day, min_edit_days: usize) -> (rows: Vec<
        UserRow,
    >)
        requires
            self.wf(),
            start.valid(),
            end.valid(),
        ensures
            forall|i: int|
                0 <= i < rows@.len() ==> start@ <= (#[trigger] rows@[i]).day@ <= end@
                    && rows@[i].describes(self) && qualifying(
                    self.day_editors(),
                    rows@[i].day@,
                    min_edit_days as nat,
                ).contains(rows@[i].editor_id as i64),
            forall|i: int, j: int|
                0 <= i < j < rows@.len() ==> rows@[i].day@ < rows@[j].day@ || (rows@[i].day@
                    == rows@[j].day@ && rows@[i].editor_id < rows@[j].editor_id),
            forall|d: i64, editor: i64|
                start@ <= d <= end@ && #[trigger] qualifying(
                    self.day_editors(),
                    d,
                    min_edit_days as nat,
                ).contains(editor) ==> exists|i: int|
                    0 <= i < rows@.len() && (#[trigger] rows@[i]).day@ == d
                        && rows@[i].editor_id as i64 == editor,
    {
        let mut rows: Vec<UserRow> = Vec::new();
        let mut number: i32 = start.number();
        let last: i32 = end.number();
        let ghost by_day = self.day_editors();
        while number <= last
            invariant
                self.wf(),
                by_day == self.day_editors(),
                DAY_MIN <= number,
                last <= DAY_MAX,
                start@ <= number || last < number,
                last == end@,
                forall|i: int|
                    0 <= i < rows@.len() ==> start@ <= (#[trigger] rows@[i]).day@ < number
                        && rows@[i].day@ <= end@ && rows@[i].describes(self) && qualifying(
                        by_day,
                        rows@[i].day@,
                        min_edit_days as nat,
                    ).contains(rows@[i].editor_id as i64),
                forall|i: int, j: int|
                    0 <= i < j < rows@.len() ==> rows@[i].day@ < rows@[j].day@ || (rows@[i].day@
                        == rows@[j].day@ && rows@[i].editor_id < rows@[j].editor_id),
                forall|d: i64, editor: i64|
                    start@ <= d < number && #[trigger] qualifying(
                        by_day,
                        d,
                        min_edit_days as nat,
                    ).contains(editor) ==> exists|i: int|
                        0 <= i < rows@.len() && (#[trigger] rows@[i]).day@ == d
                            && rows@[i].editor_id as i64 == editor,
            decreases last + 1 - number,
        {
            let day = Day::from_number(number).unwrap();
            let mut found = self.qualifying_users(day, min_edit_days);
            let ghost earlier = rows@;
            let ghost fresh = found@;
            rows.append(&mut found);
            proof {
                assert(rows@ == earlier + fresh);
                assert forall|i: int| 0 <= i < rows@.len() implies start@ <= (
                #[trigger] rows@[i]).day@ < number + 1 && rows@[i].day@ <= end@
                    && rows@[i].describes(self) && qualifying(
                    by_day,
                    rows@[i].day@,
                    min_edit_days as nat,
                ).contains(rows@[i].editor_id as i64) by {
                    if i < earlier.len() {
                        assert(rows@[i] == earlier[i]);
                    } else {
                        assert(rows@[i] == fresh[i - earlier.len()]);
                    }
                }
                assert forall|i: int, j: int| 0 <= i < j < rows@.len() implies rows@[i].day@
                    < rows@[j].day@ || (rows@[i].day@ == rows@[j].day@ && rows@[i].editor_id
                    < rows@[j].editor_id) by {
                    if j < earlier.len() {
                        assert(rows@[i] == earlier[i] && rows@[j] == earlier[j]);
                    } else if i < earlier.len() {
                        assert(rows@[i] == earlier[i]);
                        assert(rows@[j] == fresh[j - earlier.len()]);
                    } else {
                        assert(rows@[i] == fresh[i - earlier.len()]);
                        assert(rows@[j] == fresh[j - earlier.len()]);
                    }
                }
                assert forall|d: i64, editor: i64|
                    start@ <= d < number + 1 && #[trigger] qualifying(
                        by_day,
                        d,
                        min_edit_days as nat,
                    ).contains(editor) implies exists|i: int|
                    0 <= i < rows@.len() && (#[trigger] rows@[i]).day@ == d
                        && rows@[i].editor_id as i64 == editor by {
                    if d < number {
                        let i = choose|i: int|
                            0 <= i < earlier.len() && (#[trigger] earlier[i]).day@ == d
                                && earlier[i].editor_id as i64 == editor;
                        assert(rows@[i] == earlier[i]);
                    } else {
                        assert(d == day@);
                        assert(qualifying(
                            self.day_editors(),
                            day@,
                            min_edit_days as nat,
                        ).contains(editor));
                        let i = choose|i: int|
                            0 <= i < fresh.len() && (#[trigger] fresh[i]).editor_id as i64
                                == editor;
                        assert(0 <= i < fresh.len());
                        assert(rows@[earlier.len() + i] == fresh[i]);
                    }
                }
            }
            number = number + 1;
        }
        rows
    }

    /// The span of the per-user report that `options` ask for. It fails on
    /// an index without events, and where `resolve_span` fails on the
    /// observed range.
    pub fn report_span(&self, options: &ReportOptions) -> (span: Result<(Day, Day), Error>)
        requires
            self.wf(),
            options.valid(),
        ensures
            self.day_editors().dom() == Set::<i64>::empty() ==> span == Err::<(Day, Day), Error>(
                Error::EmptyInput,
            ),
            self.day_editors().dom() != Set::<i64>::empty() ==> exists|first: i64, last: i64|
                {
                    &&& #[trigger] self.bounds_observed(first, last)
                    &&& match span_of(
                        (first as int, last as int),
                        number_of(options.start_date),
                        number_of(options.end_date),
                        options.min_num_days,
                    ) {
                        Ok((from, to)) => span matches Ok((a, b)) && a@ == from && b@ == to
                            && a.valid() && b.valid(),
                        Err(e) => span == Err::<(Day, Day), Error>(e),
                    }
                },
    {
        match self.observed_range() {
            Ok(observed) => {
                assert(self.bounds_observed(observed.0@, observed.1@));
                resolve_span(observed, options.start_date, options.end_date, options.min_num_days)
            },
            Err(e) => Err(e),
        }
    }

    /// Whether `first` and `last` are the first and the last day with an edit.
    pub open spec fn bounds_observed(&self, first: i64, last: i64) -> bool {
        &&& self.day_editors().dom().contains(first)
        &&& self.day_editors().dom().contains(last)
        &&& forall|d: i64| #[trigger] self.day_editors().dom().contains(d) ==> first <= d <= last
    }
}

} // verus!
