use vstd::prelude::*;

use crate::event::Event;
use crate::event::EventModel;
use crate::event::EventType;
use crate::event::events_view;

verus! {

/// The kind of action recorded in a task's per-key activity list. It mirrors
/// `EventType` one to one, but belongs to the aggregated (time card) layer
/// rather than to the event log.
#[derive(Clone, Copy, PartialEq, Eq, Structural, Debug)]
pub enum ActionType {
    START,
    STOP,
}

/// Mathematical value of a `TaskAction`.
#[verifier::ext_equal]
pub ghost struct ActionModel {
    pub action_type: ActionType,
    pub time: int,
}

/// One action taken for a task (clocking in or out), with its timestamp in
/// milliseconds since the Unix epoch. Immutable derived value: one per source
/// event.
#[derive(Clone, Copy, PartialEq, Eq, Structural, Debug)]
pub struct TaskAction {
    pub action_type: ActionType,
    pub time: i64,
}

impl View for TaskAction {
    type V = ActionModel;

    open spec fn view(&self) -> ActionModel {
        ActionModel { action_type: self.action_type, time: self.time as int }
    }
}

/// Mathematical value of a `TimeCard`: the key of the task presumed active
/// (empty if none) and the map from each task key to its ordered action list.
#[verifier::ext_equal]
pub ghost struct TimeCardModel {
    pub current_task: Seq<char>,
    pub tasks_by_key: Map<Seq<char>, Seq<ActionModel>>,
}

/// The action a single event contributes to its task's list.
pub open spec fn action_of(e: EventModel) -> ActionModel {
    ActionModel {
        action_type: match e.event_type {
            EventType::START => ActionType::START,
            EventType::STOP => ActionType::STOP,
        },
        time: e.time,
    }
}

/// The action list a task key currently has, or the empty sequence if the key
/// has not been seen yet.
pub open spec fn actions_so_far(m: TimeCardModel, key: Seq<char>) -> Seq<ActionModel> {
    if m.tasks_by_key.contains_key(key) {
        m.tasks_by_key[key]
    } else {
        Seq::empty()
    }
}

/// How folding one event changes a time card: a START event overwrites the
/// current task with the event's key (STOP leaves it unchanged), and the
/// event's action is appended to its key's list.
pub open spec fn step(m: TimeCardModel, e: EventModel) -> TimeCardModel {
    TimeCardModel {
        current_task: if e.event_type is START {
            e.key
        } else {
            m.current_task
        },
        tasks_by_key: m.tasks_by_key.insert(e.key, actions_so_far(m, e.key).push(action_of(e))),
    }
}

/// The state of a freshly constructed time card: no current task, no entries.
pub open spec fn empty_model() -> TimeCardModel {
    TimeCardModel { current_task: Seq::empty(), tasks_by_key: Map::empty() }
}

/// Folding a whole event sequence into a time card, one event at a time, in
/// sequence order.
pub open spec fn fold_events(m: TimeCardModel, events: Seq<EventModel>) -> TimeCardModel
    decreases events.len(),
{
    if events.len() == 0 {
        m
    } else {
        step(fold_events(m, events.drop_last()), events.last())
    }
}

/// Law: aggregating events one at a time and aggregating them in one batch
/// agree. Folding a sequence extended by one event is exactly one `step`
/// (the contract of `add_event`) applied to the fold of the original
/// sequence, so repeated `add_event` calls from an empty card reach the same
/// state as `new_from_events` on the whole sequence.
pub proof fn lemma_fold_events_push(m: TimeCardModel, events: Seq<EventModel>, e: EventModel)
    ensures
        fold_events(m, events.push(e)) == step(fold_events(m, events), e),
{
    assert(events.push(e).drop_last() =~= events);
    assert(events.push(e).last() == e);
}

/// Folding a whole event sequence one event at a time from the front: the
/// state an incremental construction reaches after each `add_event` call.
pub open spec fn fold_events_from_first(m: TimeCardModel, events: Seq<EventModel>) -> TimeCardModel
    decreases events.len(),
{
    if events.len() == 0 {
        m
    } else {
        fold_events_from_first(step(m, events.first()), events.drop_first())
    }
}

/// Law: the two construction paths agree for every finite event sequence.
/// Aggregating a whole sequence in one batch (`fold_events`, the contract of
/// `new_from_events`) reaches exactly the state that applying `step` (the
/// contract of `add_event`) once per event, from the first onward, reaches.
pub proof fn lemma_fold_events_agree(m: TimeCardModel, events: Seq<EventModel>)
    ensures
        fold_events(m, events) == fold_events_from_first(m, events),
    decreases events.len(),
{
    if events.len() > 0 {
        lemma_fold_events_agree(step(m, events.first()), events.drop_first());
        lemma_fold_events_skip_first(m, events);
    }
}

/// Folding a non-empty sequence in one batch equals folding its tail after
/// one step on its head.
proof fn lemma_fold_events_skip_first(m: TimeCardModel, events: Seq<EventModel>)
    requires
        events.len() > 0,
    ensures
        fold_events(m, events) == fold_events(step(m, events.first()), events.drop_first()),
    decreases events.len(),
{
    let e0 = events.first();
    let tail = events.drop_first();
    if events.len() == 1 {
        assert(tail.len() == 0);
        assert(events.last() == e0);
        assert(events.drop_last().len() == 0);
        assert(fold_events(m, events.drop_last()) == m);
        assert(fold_events(m, events) == step(m, e0));
        assert(fold_events(step(m, e0), tail) == step(m, e0));
    } else {
        lemma_fold_events_skip_first(m, events.drop_last());
        assert(events.drop_last().first() == e0);
        assert(tail.drop_last() =~= events.drop_last().drop_first());
        assert(tail.last() == events.last());
        assert(fold_events(m, events) == step(fold_events(m, events.drop_last()), events.last()));
        assert(fold_events(step(m, e0), tail) == step(
            fold_events(step(m, e0), tail.drop_last()),
            tail.last(),
        ));
        assert(fold_events(m, events.drop_last()) == fold_events(step(m, e0), tail.drop_last()));
    }
}

/// Law: folding a sequence of events leaves the current task unchanged when
/// the sequence holds no START event, and otherwise sets it to the key of
/// the last START event in fold order; STOP events never change it.
pub proof fn lemma_current_task_derivation(m: TimeCardModel, evs: Seq<EventModel>)
    ensures
        (forall|i: int| 0 <= i < evs.len() ==> !(#[trigger] evs[i].event_type is START))
            ==> fold_events(m, evs).current_task == m.current_task,
        forall|i: int|
            0 <= i < evs.len() && evs[i].event_type is START && (forall|j: int|
                i < j < evs.len() ==> !(#[trigger] evs[j].event_type is START))
                ==> fold_events(m, evs).current_task == #[trigger] evs[i].key,
    decreases evs.len(),
{
    if evs.len() > 0 {
        lemma_current_task_derivation(m, evs.drop_last());
        let last = evs.last();
        assert forall|i: int|
            0 <= i < evs.len() && evs[i].event_type is START && (forall|j: int|
                i < j < evs.len() ==> !(#[trigger] evs[j].event_type is START))
                implies fold_events(m, evs).current_task == #[trigger] evs[i].key by {
            if last.event_type is START {
                assert(i == evs.len() - 1);
            } else {
                assert(i < evs.len() - 1);
                assert(evs.drop_last()[i] == evs[i]);
                assert(forall|j: int|
                    i < j < evs.drop_last().len() ==> !(#[trigger] evs.drop_last()[j].event_type
                        is START));
            }
        }
    }
}

/// The action models of an executable action list.
pub open spec fn actions_view(s: Seq<TaskAction>) -> Seq<ActionModel> {
    s.map_values(|a: TaskAction| a@)
}

/// One task key together with its ordered action list.
#[derive(PartialEq, Eq, Debug)]
struct TaskEntry {
    key: String,
    actions: Vec<TaskAction>,
}

/// The map that a list of task entries denotes; a later entry for the same
/// key would shadow an earlier one, which well-formedness rules out.
spec fn entries_map(s: Seq<TaskEntry>) -> Map<Seq<char>, Seq<ActionModel>>
    decreases s.len(),
{
    if s.len() == 0 {
        Map::empty()
    } else {
        entries_map(s.drop_last()).insert(s.last().key@, actions_view(s.last().actions@))
    }
}

/// No task key appears in two entries of the list.
spec fn distinct_keys(s: Seq<TaskEntry>) -> bool {
    forall|i: int, j: int| 0 <= i < j < s.len() ==> s[i].key@ != s[j].key@
}

/// The entries map holds exactly the keys of the entries in the list.
proof fn lemma_entries_map_keys(s: Seq<TaskEntry>)
    ensures
        forall|k: Seq<char>|
            entries_map(s).contains_key(k) <==> exists|i: int|
                0 <= i < s.len() && #[trigger] s[i].key@ == k,
    decreases s.len(),
{
    if s.len() > 0 {
        lemma_entries_map_keys(s.drop_last());
        assert forall|k: Seq<char>| entries_map(s).contains_key(k) implies exists|i: int|
            0 <= i < s.len() && #[trigger] s[i].key@ == k by {
            if k == s.last().key@ {
                assert(s[s.len() - 1].key@ == k);
            } else {
                assert(entries_map(s.drop_last()).contains_key(k));
                let i = choose|i: int|
                    0 <= i < s.drop_last().len() && #[trigger] s.drop_last()[i].key@ == k;
                assert(s[i].key@ == k);
            }
        }
        assert forall|k: Seq<char>|
            (exists|i: int|
                0 <= i < s.len() && #[trigger] s[i].key@ == k) implies entries_map(
            s,
        ).contains_key(k) by {
            let i = choose|i: int| 0 <= i < s.len() && #[trigger] s[i].key@ == k;
            if i < s.len() - 1 {
                assert(s.drop_last()[i].key@ == k);
                assert(entries_map(s.drop_last()).contains_key(k));
            } else {
                assert(k == s.last().key@);
            }
        }
    }
}

/// Under distinct keys, the entries map sends each entry's key to that
/// entry's action list.
proof fn lemma_entries_map_index(s: Seq<TaskEntry>, i: int)
    requires
        distinct_keys(s),
        0 <= i < s.len(),
    ensures
        entries_map(s).contains_key(s[i].key@),
        entries_map(s)[s[i].key@] == actions_view(s[i].actions@),
    decreases s.len(),
{
    if i < s.len() - 1 {
        assert(distinct_keys(s.drop_last()));
        lemma_entries_map_index(s.drop_last(), i);
        assert(s.drop_last()[i] == s[i]);
        assert(s[i].key@ != s.last().key@);
    }
}

/// Replacing one entry's action list (the key kept) updates exactly that
/// key's value in the entries map.
proof fn lemma_entries_map_update(s: Seq<TaskEntry>, i: int, e: TaskEntry)
    requires
        distinct_keys(s),
        0 <= i < s.len(),
        e.key@ == s[i].key@,
    ensures
        distinct_keys(s.update(i, e)),
        entries_map(s.update(i, e)) == entries_map(s).insert(
            e.key@,
            actions_view(e.actions@),
        ),
    decreases s.len(),
{
    let su = s.update(i, e);
    assert(distinct_keys(su));
    if i == s.len() - 1 {
        assert(su.drop_last() =~= s.drop_last());
        assert(su.last() == e);
        assert(s.last().key@ == e.key@);
        assert(entries_map(su) =~= entries_map(s).insert(e.key@, actions_view(e.actions@)));
    } else {
        assert(distinct_keys(s.drop_last()));
        assert(s.drop_last()[i] == s[i]);
        lemma_entries_map_update(s.drop_last(), i, e);
        assert(su.drop_last() =~= s.drop_last().update(i, e));
        assert(su.last() == s.last());
        assert(e.key@ != s.last().key@);
        assert(entries_map(su) =~= entries_map(s).insert(e.key@, actions_view(e.actions@)));
    }
}

/// Under distinct keys, the entries map has exactly one key per entry.
proof fn lemma_entries_map_len(s: Seq<TaskEntry>)
    requires
        distinct_keys(s),
    ensures
        entries_map(s).dom().finite(),
        entries_map(s).dom().len() == s.len(),
    decreases s.len(),
{
    if s.len() == 0 {
        assert(entries_map(s).dom() =~= Set::<Seq<char>>::empty());
    } else {
        assert(distinct_keys(s.drop_last()));
        lemma_entries_map_len(s.drop_last());
        if entries_map(s.drop_last()).contains_key(s.last().key@) {
            lemma_entries_map_keys(s.drop_last());
            let j = choose|j: int|
                0 <= j < s.drop_last().len() && #[trigger] s.drop_last()[j].key@
                    == s.last().key@;
            assert(s[j].key@ == s.last().key@);
            assert(false);
        }
        assert(entries_map(s).dom() =~= entries_map(s.drop_last()).dom().insert(s.last().key@));
    }
}

/// Relies on `str`'s `==` (its `PartialEq::eq`): true exactly when the two
/// string slices hold the same characters.
#[verifier::external_body]
fn str_eq(a: &str, b: &str) -> (r: bool)
    ensures
        r == (a@ == b@),
{
    a == b
}

impl ActionType {
    /// The title-case name this action carries in rendered time cards.
    pub fn label(&self) -> (r: String)
        ensures
            *self is START ==> r@ == "Start"@,
            *self is STOP ==> r@ == "Stop"@,
    {
        match self {
            ActionType::START => "Start".to_owned(),
            ActionType::STOP => "Stop".to_owned(),
        }
    }
}

/// A time card: the per-task view of an event sequence. Each task key maps to
/// the ordered list of actions folded in for it, and `current_task` names the
/// task presumed active (the key of the last START event folded in, or the
/// empty string if none).
#[derive(PartialEq, Eq, Debug)]
pub struct TimeCard {
    pub current_task: String,
    entries: Vec<TaskEntry>,
}

impl TimeCard {
    /// The mathematical value of this time card.
    pub closed spec fn model(self) -> TimeCardModel {
        TimeCardModel { current_task: self.current_task@, tasks_by_key: entries_map(self.entries@) }
    }

    /// Well-formed: no task key appears in two entries.
    pub closed spec fn wf(self) -> bool {
        distinct_keys(self.entries@)
    }

    /// The key of the task presumed active, or the empty string if none.
    pub fn current_task(&self) -> (r: &String)
        ensures
            r@ == self.model().current_task,
    {
        &self.current_task
    }

    /// A fresh, empty time card: no current task and an empty task map.
    pub fn new() -> (card: TimeCard)
        ensures
            card.wf(),
            card.model() == empty_model(),
    {
        let card = TimeCard { current_task: String::new(), entries: Vec::new() };
        proof {
            assert(card.model().tasks_by_key =~= empty_model().tasks_by_key);
            assert(card.model() =~= empty_model());
        }
        card
    }

    /// Fold one event into the aggregate: a START event makes its key the
    /// current task (STOP leaves the current task as it was), and the event's
    /// action is appended to its key's list, the entry being created when the
    /// key is new. START/STOP pairing is not enforced: any sequence of events
    /// is accepted.
    #[verifier::loop_isolation(false)]
    pub fn add_event(&mut self, event: &Event)
        requires
            old(self).wf(),
        ensures
            final(self).wf(),
            final(self).model() == step(old(self).model(), event@),
    {
        let ghost m0 = self.model();
        match event.event_type {
            EventType::START => {
                self.current_task = event.key.clone();
            },
            EventType::STOP => {},
        }
        let action = TaskAction {
            action_type: match event.event_type {
                EventType::START => ActionType::START,
                EventType::STOP => ActionType::STOP,
            },
            time: event.time,
        };
        proof {
            assert(action@ == action_of(event@));
        }
        let ghost cur_after = self.current_task@;
        let ghost pre = self.entries@;
        let mut i: usize = 0;
        while i < self.entries.len()
            invariant
                i <= self.entries@.len(),
                self.entries@ == pre,
                self.current_task@ == cur_after,
                forall|j: int| 0 <= j < i ==> pre[j].key@ != event@.key,
            decreases self.entries@.len() - i,
        {
            if self.entries[i].key == event.key {
                proof {
                    lemma_entries_map_index(pre, i as int);
                }
                self.entries[i].actions.push(action);
                proof {
                    let e_new = self.entries@[i as int];
                    assert(e_new.key@ == event@.key);
                    assert(e_new.actions@ == pre[i as int].actions@.push(action));
                    assert(actions_view(e_new.actions@) =~= actions_view(
                        pre[i as int].actions@,
                    ).push(action@));
                    lemma_entries_map_update(pre, i as int, e_new);
                    assert(self.entries@ == pre.update(i as int, e_new));
                    assert(actions_so_far(m0, event@.key) == actions_view(pre[i as int].actions@));
                    assert(self.model().tasks_by_key =~= step(m0, event@).tasks_by_key);
                    assert(self.model() =~= step(m0, event@));
                }
                return ;
            }
            i += 1;
        }
        let mut first_actions: Vec<TaskAction> = Vec::new();
        first_actions.push(action);
        proof {
            if entries_map(pre).contains_key(event@.key) {
                lemma_entries_map_keys(pre);
                let j = choose|j: int| 0 <= j < pre.len() && #[trigger] pre[j].key@ == event@.key;
                assert(false);
            }
        }
        self.entries.push(TaskEntry { key: event.key.clone(), actions: first_actions });
        proof {
            let post = self.entries@;
            assert(post.drop_last() =~= pre);
            assert(post.last().key@ == event@.key);
            assert(distinct_keys(post));
            assert(actions_view(post.last().actions@) =~= Seq::<ActionModel>::empty().push(
                action@,
            ));
            assert(actions_so_far(m0, event@.key) == Seq::<ActionModel>::empty());
            assert(self.model().tasks_by_key =~= step(m0, event@).tasks_by_key);
            assert(self.model() =~= step(m0, event@));
        }
    }

    /// Aggregate a whole event sequence: equivalent to `new()` followed by
    /// folding `add_event` over the events in sequence order. A pure function
    /// of its input.
    #[verifier::loop_isolation(false)]
    pub fn new_from_events(events: Vec<Event>) -> (card: TimeCard)
        ensures
            card.wf(),
            card.model() == fold_events(empty_model(), events_view(events@)),
    {
        let ghost evs = events_view(events@);
        let mut card = TimeCard::new();
        let mut i: usize = 0;
        while i < events.len()
            invariant
                i <= events@.len(),
                card.wf(),
                card.model() == fold_events(empty_model(), evs.take(i as int)),
            decreases events@.len() - i,
        {
            card.add_event(&events[i]);
            proof {
                lemma_fold_events_push(empty_model(), evs.take(i as int), evs[i as int]);
                assert(evs.take(i as int).push(evs[i as int]) =~= evs.take(i as int + 1));
            }
            i += 1;
        }
        proof {
            assert(evs.take(events@.len() as int) =~= evs);
        }
        card
    }

    /// The ordered action list recorded for a task key, or nothing if the
    /// key has never had an event folded in.
    #[verifier::loop_isolation(false)]
    pub fn get_actions(&self, key: &str) -> (r: Option<&Vec<TaskAction>>)
        requires
            self.wf(),
        ensures
            (match r {
                Some(actions) => self.model().tasks_by_key.contains_key(key@) && actions_view(
                    actions@,
                ) == self.model().tasks_by_key[key@],
                None => !self.model().tasks_by_key.contains_key(key@),
            }),
    {
        let mut i: usize = 0;
        while i < self.entries.len()
            invariant
                i <= self.entries@.len(),
                forall|j: int| 0 <= j < i ==> self.entries@[j].key@ != key@,
            decreases self.entries@.len() - i,
        {
            if str_eq(self.entries[i].key.as_str(), key) {
                proof {
                    lemma_entries_map_index(self.entries@, i as int);
                }
                return Some(&self.entries[i].actions);
            }
            i += 1;
        }
        proof {
            if entries_map(self.entries@).contains_key(key@) {
                lemma_entries_map_keys(self.entries@);
                let j = choose|j: int|
                    0 <= j < self.entries@.len() && #[trigger] self.entries@[j].key@ == key@;
                assert(false);
            }
        }
        None
    }

    /// The task keys the card holds, one for each entry of the task map,
    /// without repetition.
    #[verifier::loop_isolation(false)]
    pub fn task_keys(&self) -> (keys: Vec<String>)
        requires
            self.wf(),
        ensures
            forall|i: int|
                0 <= i < keys@.len() ==> self.model().tasks_by_key.contains_key(
                    #[trigger] keys@[i]@,
                ),
            forall|i: int, j: int| 0 <= i < j < keys@.len() ==> keys@[i]@ != keys@[j]@,
            forall|k: Seq<char>|
                self.model().tasks_by_key.contains_key(k) ==> exists|i: int|
                    0 <= i < keys@.len() && #[trigger] keys@[i]@ == k,
    {
        let mut keys: Vec<String> = Vec::new();
        let mut i: usize = 0;
        while i < self.entries.len()
            invariant
                i <= self.entries@.len(),
                keys@.len() == i,
                forall|j: int| 0 <= j < i ==> #[trigger] keys@[j]@ == self.entries@[j].key@,
            decreases self.entries@.len() - i,
        {
            keys.push(self.entries[i].key.clone());
            i += 1;
        }
        proof {
            assert forall|j: int|
                0 <= j < keys@.len() implies self.model().tasks_by_key.contains_key(
                #[trigger] keys@[j]@,
            ) by {
                lemma_entries_map_index(self.entries@, j);
            }
            lemma_entries_map_keys(self.entries@);
            assert forall|k: Seq<char>|
                self.model().tasks_by_key.contains_key(k) implies exists|i2: int|
                0 <= i2 < keys@.len() && #[trigger] keys@[i2]@ == k by {
                let j = choose|j: int|
                    0 <= j < self.entries@.len() && #[trigger] self.entries@[j].key@ == k;
                assert(keys@[j]@ == k);
            }
        }
        keys
    }

    /// How many distinct task keys the card holds.
    pub fn num_tasks(&self) -> (n: usize)
        requires
            self.wf(),
        ensures
            n == self.model().tasks_by_key.dom().len(),
    {
        proof {
            lemma_entries_map_len(self.entries@);
        }
        self.entries.len()
    }
}

} // verus!
