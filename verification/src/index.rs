//! The three activity indexes, built by folding events and merging partial results.

use crate::calendar::{Day, DAY_MAX, DAY_MIN};
use crate::error::Error;
use crate::names::{file_sighting, join_names, NameIndex, Sighting};
use crate::set_index::{
    add_pair, dual, holds, join, lemma_add_pair_holds, lemma_join_holds, rows_inhabited,
    SetIndex,
};
use crate::timestamp::{day_number_of_text, Timestamp};
use vstd::prelude::*;

verus! {

/// One edit: who made it, under which name, when, and on which calendar day.
#[derive(Clone, Debug)]
pub struct EditEvent {
    pub editor_id: u32,
    pub editor_name: String,
    pub timestamp: i64,
    pub day: Day,
}

impl EditEvent {
    /// Whether the event's day lies within the calendar.
    pub open spec fn valid(&self) -> bool {
        self.day.valid()
    }

    /// The editor as an index key.
    pub open spec fn editor_key(&self) -> i64 {
        self.editor_id as i64
    }

    /// The day as an index key.
    pub open spec fn day_key(&self) -> i64 {
        self.day@
    }

    /// The name sighting that the event carries.
    pub open spec fn sighting(&self) -> Sighting {
        (self.timestamp, self.editor_name@)
    }

    /// Makes an event of what a source delivers. An event without editor id,
    /// without name, without timestamp, or whose timestamp names no calendar
    /// day is malformed.
    pub fn decode(
        editor_id: Option<u32>,
        editor_name: Option<String>,
        timestamp: Option<Timestamp>,
    ) -> (decoded: Result<EditEvent, Error>)
        ensures
            decoded is Err <==> (editor_id is None || editor_name is None || timestamp is None
                || day_number_of_text(timestamp->0.text_of()) is None),
            decoded matches Err(e) ==> e == Error::MalformedEvent,
            decoded matches Ok(event) ==> event.valid() && Some(event.editor_id) == editor_id
                && event.editor_name@ == editor_name->0@ && event.timestamp
                == timestamp->0.epoch_of() && day_number_of_text(timestamp->0.text_of()) == Some(
                event.day@ as i32,
            ),
    {
        match timestamp {
            Some(time) => EditEvent::assemble(editor_id, editor_name, time.epoch(), time.day()),
            None => Err(Error::MalformedEvent),
        }
    }

    /// Makes an event of its parts, where none is missing.
    pub fn assemble(
        editor_id: Option<u32>,
        editor_name: Option<String>,
        timestamp: i64,
        day: Option<Day>,
    ) -> (made: Result<EditEvent, Error>)
        ensures
            made is Err <==> (editor_id is None || editor_name is None || day is None),
            made matches Err(e) ==> e == Error::MalformedEvent,
            made matches Ok(event) ==> Some(event.editor_id) == editor_id && event.editor_name@
                == editor_name->0@ && event.timestamp == timestamp && Some(event.day) == day,
    {
        match (editor_id, editor_name, day) {
            (Some(editor_id), Some(editor_name), Some(day)) => Ok(
                EditEvent { editor_id, editor_name, timestamp, day },
            ),
            _ => Err(Error::MalformedEvent),
        }
    }
}

/// Each editor's days after folding `events` one by one into an empty index.
pub open spec fn folded_days(events: Seq<EditEvent>) -> Map<i64, Set<i64>>
    decreases events.len(),
{
    if events.len() == 0 {
        Map::empty()
    } else {
        add_pair(
            folded_days(events.drop_last()),
            events.last().editor_key(),
            events.last().day_key(),
        )
    }
}

/// Each day's editors after folding `events` one by one into an empty index.
pub open spec fn folded_editors(events: Seq<EditEvent>) -> Map<i64, Set<i64>>
    decreases events.len(),
{
    if events.len() == 0 {
        Map::empty()
    } else {
        add_pair(
            folded_editors(events.drop_last()),
            events.last().day_key(),
            events.last().editor_key(),
        )
    }
}

/// Each editor's name sighting after folding `events` one by one into an empty index.
pub open spec fn folded_names(events: Seq<EditEvent>) -> Map<i64, Sighting>
    decreases events.len(),
{
    if events.len() == 0 {
        Map::empty()
    } else {
        file_sighting(
            folded_names(events.drop_last()),
            events.last().editor_key(),
            events.last().sighting(),
        )
    }
}

/// Whether every key of `m` lies between `lo` and `hi`.
pub open spec fn keys_within(m: Map<i64, Set<i64>>, lo: int, hi: int) -> bool {
    forall|k: i64| #[trigger] m.dom().contains(k) ==> lo <= k <= hi
}

/// The activity of a set of events: each editor's days, each day's editors,
/// and each editor's latest known name.
pub struct ActivityIndex {
    user_days: SetIndex,
    day_users: SetIndex,
    names: NameIndex,
}

impl ActivityIndex {
    /// For each editor seen, the days on which they made an edit.
    pub closed spec fn editor_days(&self) -> Map<i64, Set<i64>> {
        self.user_days@
    }

    /// For each day with an edit, the editors who made one.
    pub closed spec fn day_editors(&self) -> Map<i64, Set<i64>> {
        self.day_users@
    }

    /// For each editor seen, the name sighting kept.
    pub closed spec fn latest_names(&self) -> Map<i64, Sighting> {
        self.names@
    }

    /// The invariant of the type: the two activity maps file the same pairs,
    /// editors are 32-bit ids, days lie within the calendar, and every editor
    /// has a name.
    pub closed spec fn wf(&self) -> bool {
        &&& self.user_days.wf()
        &&& self.day_users.wf()
        &&& self.names.wf()
        &&& dual(self.user_days@, self.day_users@)
        &&& keys_within(self.user_days@, 0, u32::MAX as int)
        &&& keys_within(self.day_users@, DAY_MIN as int, DAY_MAX as int)
        &&& self.names@.dom() == self.user_days@.dom()
    }

    /// What well-formedness says of the three maps.
    pub proof fn lemma_wf(&self)
        requires
            self.wf(),
        ensures
            dual(self.editor_days(), self.day_editors()),
            rows_inhabited(self.editor_days()),
            rows_inhabited(self.day_editors()),
            keys_within(self.editor_days(), 0, u32::MAX as int),
            keys_within(self.day_editors(), DAY_MIN as int, DAY_MAX as int),
            self.latest_names().dom() == self.editor_days().dom(),
            self.editor_days().dom().finite(),
            self.day_editors().dom().finite(),
            forall|k: i64| #[trigger]
                self.editor_days().dom().contains(k) ==> self.editor_days()[k].finite(),
            forall|k: i64| #[trigger]
                self.day_editors().dom().contains(k) ==> self.day_editors()[k].finite(),
    {
        self.user_days.lemma_view();
        self.day_users.lemma_view();
    }

    /// The two activity maps are dual views of one set of events: an editor
    /// is filed under a day exactly if the day is filed under the editor.
    pub proof fn lemma_duality(&self, day: i64, editor: i64)
        requires
            self.wf(),
        ensures
            holds(self.day_editors(), day, editor) <==> holds(self.editor_days(), editor, day),
    {
        assert(holds(self.user_days@, editor, day) <==> holds(self.day_users@, day, editor));
    }

    /// The index of no events.
    pub fn new() -> (index: ActivityIndex)
        ensures
            index.wf(),
            index.editor_days() == Map::<i64, Set<i64>>::empty(),
            index.day_editors() == Map::<i64, Set<i64>>::empty(),
            index.latest_names() == Map::<i64, Sighting>::empty(),
    {
        let index = ActivityIndex {
            user_days: SetIndex::new(),
            day_users: SetIndex::new(),
            names: NameIndex::new(),
        };
        assert(index.names@.dom() =~= index.user_days@.dom());
        index
    }

    /// Each editor's days of activity.
    pub fn user_activity(&self) -> (index: &SetIndex)
        requires
            self.wf(),
        ensures
            index.wf(),
            index@ == self.editor_days(),
    {
        &self.user_days
    }

    /// Each day's active editors.
    pub fn day_activity(&self) -> (index: &SetIndex)
        requires
            self.wf(),
        ensures
            index.wf(),
            index@ == self.day_editors(),
    {
        &self.day_users
    }

    /// Each editor's latest known name.
    pub fn name_index(&self) -> (index: &NameIndex)
        requires
            self.wf(),
        ensures
            index.wf(),
            index@ == self.latest_names(),
    {
        &self.names
    }

    /// Folds one event into the index: its day joins the editor's days, its
    /// editor joins the day's editors, and its name is filed as a sighting.
    pub fn fold_event(&mut self, event: &EditEvent)
        requires
            old(self).wf(),
            event.valid(),
        ensures
            final(self).wf(),
            final(self).editor_days() == add_pair(
                old(self).editor_days(),
                event.editor_key(),
                event.day_key(),
            ),
            final(self).day_editors() == add_pair(
                old(self).day_editors(),
                event.day_key(),
                event.editor_key(),
            ),
            final(self).latest_names() == file_sighting(
                old(self).latest_names(),
                event.editor_key(),
                event.sighting(),
            ),
    {
        let editor: i64 = event.editor_id as i64;
        let day: i64 = event.day.number() as i64;
        proof {
            lemma_add_pair_holds(self.user_days@, editor, day);
            lemma_add_pair_holds(self.day_users@, day, editor);
        }
        self.names.record(editor, event.timestamp, &event.editor_name);
        self.user_days.insert(editor, day);
        self.day_users.insert(day, editor);
        proof {
            assert(dual(self.user_days@, self.day_users@)) by {
                assert forall|k: i64, v: i64| #[trigger]
                    holds(self.user_days@, k, v) <==> holds(self.day_users@, v, k) by {
                    assert(holds(old(self).user_days@, k, v) <==> holds(
                        old(self).day_users@,
                        v,
                        k,
                    ));
                }
            }
            assert(self.names@.dom() =~= self.user_days@.dom());
        }
    }

    /// Merges a partial index into this one: activity unites entry by entry,
    /// and each name sighting of `other` is filed after those held here.
    pub fn merge(&mut self, other: &ActivityIndex)
        requires
            old(self).wf(),
            other.wf(),
        ensures
            final(self).wf(),
            final(self).editor_days() == join(old(self).editor_days(), other.editor_days()),
            final(self).day_editors() == join(old(self).day_editors(), other.day_editors()),
            final(self).latest_names() == join_names(
                old(self).latest_names(),
                other.latest_names(),
            ),
    {
        proof {
            lemma_join_holds(self.user_days@, other.user_days@);
            lemma_join_holds(self.day_users@, other.day_users@);
        }
        self.user_days.merge(&other.user_days);
        self.day_users.merge(&other.day_users);
        self.names.merge(&other.names);
        proof {
            assert(dual(self.user_days@, self.day_users@)) by {
                assert forall|k: i64, v: i64| #[trigger]
                    holds(self.user_days@, k, v) <==> holds(self.day_users@, v, k) by {
                    assert(holds(old(self).user_days@, k, v) <==> holds(
                        old(self).day_users@,
                        v,
                        k,
                    ));
                    assert(holds(other.user_days@, k, v) <==> holds(other.day_users@, v, k));
                }
            }
            assert(self.names@.dom() =~= self.user_days@.dom());
        }
    }

    /// Folds a worker's events, in the order delivered, into a fresh index.
    pub fn aggregate(events: &Vec<EditEvent>) -> (index: ActivityIndex)
        requires
            forall|i: int| 0 <= i < events@.len() ==> (#[trigger] events@[i]).valid(),
        ensures
            index.wf(),
            index.editor_days() == folded_days(events@),
            index.day_editors() == folded_editors(events@),
            index.latest_names() == folded_names(events@),
    {
        let mut index = ActivityIndex::new();
        let n: usize = events.len();
        let mut i: usize = 0;
        assert(events@.take(0) =~= Seq::<EditEvent>::empty());
        while i < n
            invariant
                i <= n,
                n == events@.len(),
                forall|k: int| 0 <= k < events@.len() ==> (#[trigger] events@[k]).valid(),
                index.wf(),
                index.editor_days() == folded_days(events@.take(i as int)),
                index.day_editors() == folded_editors(events@.take(i as int)),
                index.latest_names() == folded_names(events@.take(i as int)),
            decreases n - i,
        {
            proof {
                let next = events@.take(i + 1);
                assert(next.drop_last() =~= events@.take(i as int));
                assert(next.last() == events@[i as int]);
            }
            index.fold_event(&events[i]);
            i = i + 1;
        }
        assert(events@.take(n as int) =~= events@);
        index
    }
}

} // verus!
