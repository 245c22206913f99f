//! The rows of the event file and of the state file, and the events that changes of the node's
//! gauges and counters call for.
use crate::decimal::{to_decimal, to_signed_decimal};
use vstd::prelude::*;
use vstd::string::StringExecFns;

verus! {

use crate::decimal::{decimal, signed_decimal};

/// Who writes the event file.
pub struct EventState {
    pub role: String,
    pub node: String,
}

/// The fields of a row, with commas between them.
pub open spec fn comma_separated(fields: Seq<Seq<char>>) -> Seq<char>
    decreases fields.len(),
{
    if fields.len() == 0 {
        Seq::empty()
    } else if fields.len() == 1 {
        fields[0]
    } else {
        comma_separated(fields.drop_last()) + ","@ + fields.last()
    }
}

/// Adds the field `more` to a row with the fields `fields`.
fn add_field(row: &mut String, more: &str, Ghost(fields): Ghost<Seq<Seq<char>>>)
    requires
        fields.len() > 0,
        old(row)@ == comma_separated(fields),
    ensures
        final(row)@ == comma_separated(fields.push(more@)),
{
    row.append(",");
    row.append(more);
    assert(fields.push(more@).drop_last() =~= fields);
}

/// The first row of the event file.
pub fn event_header() -> (row: &'static str)
    ensures
        row@ == "ts_ms,role,node,event,value\n"@,
{
    "ts_ms,role,node,event,value\n"
}

/// The first row of the state file.
pub fn fast_state_header() -> (row: &'static str)
    ensures
        row@
            == "ts_ms,role,node,consensus_current_slot,consensus_oldest_blocked_slot,consensus_current_view,dissemination_inflight_holes,dissemination_hole_dependents\n"@,
{
    "ts_ms,role,node,consensus_current_slot,consensus_oldest_blocked_slot,consensus_current_view,dissemination_inflight_holes,dissemination_hole_dependents\n"
}

/// The node writes an event file from now on.
pub fn init_event_logger(role: &str, node: &str) -> (state: EventState)
    ensures
        state.role@ == role@,
        state.node@ == node@,
{
    EventState { role: String::from_str(role), node: String::from_str(node) }
}

/// The fields of the row for an event at the time `ts_ms`.
pub open spec fn event_fields(
    ts_ms: nat,
    state: EventState,
    event: Seq<char>,
    value: Seq<char>,
) -> Seq<Seq<char>> {
    seq![decimal(ts_ms), state.role@, state.node@, event, value]
}

/// The row for an event at the time `ts_ms`. Where no event file is written, there is none.
pub fn emit_event(state: &Option<EventState>, ts_ms: u128, event: &str, value: &str) -> (row: Option<
    String,
>)
    ensures
        match (*state, row) {
            (Some(s), Some(r)) => r@ == comma_separated(
                event_fields(ts_ms as nat, s, event@, value@),
            ) + "\n"@,
            (None, None) => true,
            _ => false,
        },
{
    match state {
        Some(s) => {
            let ghost f = event_fields(ts_ms as nat, *s, event@, value@);
            let mut row = to_decimal(ts_ms);
            assert(f.take(1) =~= seq![decimal(ts_ms as nat)]);
            assert(row@ == comma_separated(f.take(1)));
            add_field(&mut row, s.role.as_str(), Ghost(f.take(1)));
            assert(f.take(1).push(f[1]) =~= f.take(2));
            add_field(&mut row, s.node.as_str(), Ghost(f.take(2)));
            assert(f.take(2).push(f[2]) =~= f.take(3));
            add_field(&mut row, event, Ghost(f.take(3)));
            assert(f.take(3).push(f[3]) =~= f.take(4));
            add_field(&mut row, value, Ghost(f.take(4)));
            assert(f.take(4).push(f[4]) =~= f);
            row.append("\n");
            Some(row)
        },
        None => None,
    }
}

/// The gauges that the state file shows.
#[derive(Clone, Copy, PartialEq, Eq, Structural, Debug)]
pub struct FastState {
    pub current_slot: i64,
    pub oldest_blocked_slot: i64,
    pub current_view: i64,
    pub inflight_holes: i64,
    pub hole_dependents: i64,
}

/// The fields of the row of the state file for `s` at the time `ts_ms`.
pub open spec fn fast_state_fields(ts_ms: nat, node: Seq<char>, s: FastState) -> Seq<Seq<char>> {
    seq![
        decimal(ts_ms),
        "primary"@,
        node,
        signed_decimal(s.current_slot as int),
        signed_decimal(s.oldest_blocked_slot as int),
        signed_decimal(s.current_view as int),
        signed_decimal(s.inflight_holes as int),
        signed_decimal(s.hole_dependents as int),
    ]
}

/// The row of the state file for `s` at the time `ts_ms`.
pub fn fast_state_row(ts_ms: u128, node: &str, s: FastState) -> (row: String)
    ensures
        row@ == comma_separated(fast_state_fields(ts_ms as nat, node@, s)) + "\n"@,
{
    let ghost f = fast_state_fields(ts_ms as nat, node@, s);
    let mut row = to_decimal(ts_ms);
    assert(f.take(1) =~= seq![decimal(ts_ms as nat)]);
    assert(row@ == comma_separated(f.take(1)));
    add_field(&mut row, "primary", Ghost(f.take(1)));
    assert(f.take(1).push(f[1]) =~= f.take(2));
    add_field(&mut row, node, Ghost(f.take(2)));
    assert(f.take(2).push(f[2]) =~= f.take(3));
    add_field(&mut row, to_signed_decimal(s.current_slot).as_str(), Ghost(f.take(3)));
    assert(f.take(3).push(f[3]) =~= f.take(4));
    add_field(&mut row, to_signed_decimal(s.oldest_blocked_slot).as_str(), Ghost(f.take(4)));
    assert(f.take(4).push(f[4]) =~= f.take(5));
    add_field(&mut row, to_signed_decimal(s.current_view).as_str(), Ghost(f.take(5)));
    assert(f.take(5).push(f[5]) =~= f.take(6));
    add_field(&mut row, to_signed_decimal(s.inflight_holes).as_str(), Ghost(f.take(6)));
    assert(f.take(6).push(f[6]) =~= f.take(7));
    add_field(&mut row, to_signed_decimal(s.hole_dependents).as_str(), Ghost(f.take(7)));
    assert(f.take(7).push(f[7]) =~= f);
    row.append("\n");
    row
}

/// The gauges and counters in which changes are looked for.
#[derive(Clone, Copy, PartialEq, Eq, Structural, Debug)]
pub struct Sample {
    pub oldest_blocked_slot: i64,
    pub current_view: i64,
    pub fast_path_commits: u64,
    pub slow_path_commits: u64,
    pub view_changes: u64,
    pub leader_changes: u64,
    pub leader_timeouts: u64,
}

/// An event.
pub struct Event {
    pub name: &'static str,
    pub value: String,
}

/// An event: its name and its value.
#[verifier::ext_equal]
pub struct EventView {
    pub name: Seq<char>,
    pub value: Seq<char>,
}

impl View for Event {
    type V = EventView;

    open spec fn view(&self) -> EventView {
        EventView { name: self.name@, value: self.value@ }
    }
}

/// What `events` say.
pub open spec fn event_views(events: Seq<Event>) -> Seq<EventView> {
    events.map_values(|e: Event| e@)
}

/// The events that a change of the oldest blocked slot calls for: the recovery starts when a slot is
/// blocked and none was, and it ends when none is blocked and one was.
pub open spec fn blocked_events(before: i64, after: i64) -> Seq<EventView> {
    if before == 0 && after > 0 {
        seq![
            EventView { name: "blocked_slot_enter"@, value: signed_decimal(after as int) },
            EventView { name: "recovery_start"@, value: signed_decimal(after as int) },
        ]
    } else if before > 0 && after == 0 {
        seq![
            EventView { name: "blocked_slot_exit"@, value: signed_decimal(before as int) },
            EventView { name: "recovery_end"@, value: "0"@ },
        ]
    } else {
        Seq::empty()
    }
}

/// The event that a change of the view calls for.
pub open spec fn view_events(before: i64, after: i64) -> Seq<EventView> {
    if before != after {
        seq![EventView { name: "view_change"@, value: signed_decimal(after as int) }]
    } else {
        Seq::empty()
    }
}

/// The event that a rise of the counter `name` calls for: by how much it rose.
pub open spec fn rise_events(name: Seq<char>, before: u64, after: u64) -> Seq<EventView> {
    if after > before {
        seq![EventView { name, value: decimal((after - before) as nat) }]
    } else {
        Seq::empty()
    }
}

/// The events that the change from `before` to `after` calls for, in order.
pub open spec fn events_between(before: Sample, after: Sample) -> Seq<EventView> {
    blocked_events(before.oldest_blocked_slot, after.oldest_blocked_slot) + view_events(
        before.current_view,
        after.current_view,
    ) + rise_events("fast_path_commit"@, before.fast_path_commits, after.fast_path_commits)
        + rise_events("slow_path_commit"@, before.slow_path_commits, after.slow_path_commits)
        + rise_events("view_change_total"@, before.view_changes, after.view_changes)
        + rise_events("leader_change"@, before.leader_changes, after.leader_changes)
        + rise_events("leader_timeout"@, before.leader_timeouts, after.leader_timeouts)
}

/// Adds an event.
fn add_event(events: &mut Vec<Event>, name: &'static str, value: String)
    ensures
        event_views(final(events)@) == event_views(old(events)@).push(
            EventView { name: name@, value: value@ },
        ),
{
    let ghost before = event_views(events@);
    events.push(Event { name, value });
    assert(event_views(events@) =~= before.push(EventView { name: name@, value: value@ }));
}

/// Adds the event that a rise of the counter `name` calls for.
fn add_rise(events: &mut Vec<Event>, name: &'static str, before: u64, after: u64)
    ensures
        event_views(final(events)@) == event_views(old(events)@) + rise_events(
            name@,
            before,
            after,
        ),
{
    let ghost earlier = event_views(events@);
    if after > before {
        add_event(events, name, to_decimal((after - before) as u128));
    }
    assert(event_views(events@) =~= earlier + rise_events(name@, before, after));
}

/// Looks for changes of gauges and counters.
pub struct EventSampler {
    pub last: Sample,
}

impl EventSampler {
    /// A sampler that starts from `sample`.
    pub fn new(sample: Sample) -> (s: Self)
        ensures
            s.last == sample,
    {
        EventSampler { last: sample }
    }

    /// Takes a sample, and lists the events that the changes since the last one call for.
    pub fn on_sample(&mut self, sample: Sample) -> (events: Vec<Event>)
        ensures
            event_views(events@) == events_between(old(self).last, sample),
            final(self).last == sample,
    {
        let last = self.last;
        let mut events: Vec<Event> = Vec::new();
        assert(event_views(events@) =~= Seq::<EventView>::empty());
        let blocked: i64 = sample.oldest_blocked_slot;
        if last.oldest_blocked_slot == 0 && blocked > 0 {
            add_event(&mut events, "blocked_slot_enter", to_signed_decimal(blocked));
            add_event(&mut events, "recovery_start", to_signed_decimal(blocked));
        } else if last.oldest_blocked_slot > 0 && blocked == 0 {
            add_event(
                &mut events,
                "blocked_slot_exit",
                to_signed_decimal(last.oldest_blocked_slot),
            );
            add_event(&mut events, "recovery_end", String::from_str("0"));
        }
        assert(event_views(events@) =~= blocked_events(last.oldest_blocked_slot, blocked));
        let ghost first = event_views(events@);
        if sample.current_view != last.current_view {
            add_event(&mut events, "view_change", to_signed_decimal(sample.current_view));
        }
        assert(event_views(events@) =~= first + view_events(
            last.current_view,
            sample.current_view,
        ));
        add_rise(
            &mut events,
            "fast_path_commit",
            last.fast_path_commits,
            sample.fast_path_commits,
        );
        add_rise(
            &mut events,
            "slow_path_commit",
            last.slow_path_commits,
            sample.slow_path_commits,
        );
        add_rise(&mut events, "view_change_total", last.view_changes, sample.view_changes);
        add_rise(&mut events, "leader_change", last.leader_changes, sample.leader_changes);
        add_rise(&mut events, "leader_timeout", last.leader_timeouts, sample.leader_timeouts);
        self.last = sample;
        events
    }
}

/// Where nothing changes, there are no events.
pub proof fn no_change_no_events(s: Sample)
    ensures
        events_between(s, s).len() == 0,
{
}

/// What is reported of a counter that does not fall adds up, however often it is looked at: two rises
/// in a row are the rise from the first value to the last.
pub proof fn rises_add_up(name: Seq<char>, a: u64, b: u64, c: u64)
    requires
        a <= b <= c,
    ensures
        reported_rise(a, b) + reported_rise(b, c) == reported_rise(a, c),
        rise_events(name, a, b).len() > 0 <==> reported_rise(a, b) > 0,
        rise_events(name, a, b).len() > 0 ==> rise_events(name, a, b)[0].value == decimal(
            reported_rise(a, b),
        ),
{
}

/// By how much a counter is reported to have risen.
pub open spec fn reported_rise(before: u64, after: u64) -> nat {
    if after > before {
        (after - before) as nat
    } else {
        0
    }
}

/// A recovery that was reported to start is reported to end when no slot is blocked any more, unless
/// something else was seen in between.
pub proof fn a_recovery_ends(before: i64, blocked: i64)
    requires
        before == 0,
        blocked > 0,
    ensures
        blocked_events(before, blocked).len() == 2,
        blocked_events(before, blocked)[1].name == "recovery_start"@,
        blocked_events(blocked, before).len() == 2,
        blocked_events(blocked, before)[1].name == "recovery_end"@,
{
}

/// A row of two parts is the first part, a comma and the second; a row of one field is that field.
pub proof fn rows_are_joined_by_commas(a: Seq<Seq<char>>, b: Seq<Seq<char>>, field: Seq<char>)
    requires
        a.len() > 0,
        b.len() > 0,
    ensures
        comma_separated(seq![field]) == field,
        comma_separated(a + b) == comma_separated(a) + ","@ + comma_separated(b),
    decreases b.len(),
{
    if b.len() == 1 {
        assert((a + b).drop_last() =~= a);
        assert((a + b).last() == b[0]);
    } else {
        let front = b.drop_last();
        rows_are_joined_by_commas(a, front, field);
        assert((a + b).drop_last() =~= a + front);
        assert((a + b).last() == b.last());
        assert((comma_separated(a) + ","@ + comma_separated(front)) + ","@ + b.last()
            =~= comma_separated(a) + ","@ + (comma_separated(front) + ","@ + b.last()));
    }
}

/// The event `name` with `value` is among `events`.
pub open spec fn is_reported(events: Seq<EventView>, name: Seq<char>, value: Seq<char>) -> bool {
    exists|i: int|
        0 <= i < events.len() && (#[trigger] events[i]).name == name && events[i].value == value
}

/// One if `b` holds, else none.
pub open spec fn one_if(b: bool) -> nat {
    if b {
        1
    } else {
        0
    }
}

/// There are as many events as changes, and no others: two for a slot that gets blocked or is blocked no
/// more, and one for another view and for every counter that rose.
pub proof fn only_changes_are_reported(before: Sample, after: Sample)
    ensures
        events_between(before, after).len() == 2 * one_if(
            before.oldest_blocked_slot == 0 && after.oldest_blocked_slot > 0,
        ) + 2 * one_if(before.oldest_blocked_slot > 0 && after.oldest_blocked_slot == 0) + one_if(
            before.current_view != after.current_view,
        ) + one_if(before.fast_path_commits < after.fast_path_commits) + one_if(
            before.slow_path_commits < after.slow_path_commits,
        ) + one_if(before.view_changes < after.view_changes) + one_if(
            before.leader_changes < after.leader_changes,
        ) + one_if(before.leader_timeouts < after.leader_timeouts),
{
    assert(blocked_events(before.oldest_blocked_slot, after.oldest_blocked_slot).len() == 2
        * one_if(before.oldest_blocked_slot == 0 && after.oldest_blocked_slot > 0) + 2 * one_if(
        before.oldest_blocked_slot > 0 && after.oldest_blocked_slot == 0,
    ));
}

/// A slot that gets blocked is reported with the recovery that starts, and one that is blocked no more
/// with the recovery that ends.
pub proof fn blocked_slots_are_reported(before: Sample, after: Sample)
    ensures
        ({
            let events = events_between(before, after);
            &&& before.oldest_blocked_slot == 0 && after.oldest_blocked_slot > 0 ==> is_reported(
                events,
                "blocked_slot_enter"@,
                signed_decimal(after.oldest_blocked_slot as int),
            ) && is_reported(
                events,
                "recovery_start"@,
                signed_decimal(after.oldest_blocked_slot as int),
            )
            &&& before.oldest_blocked_slot > 0 && after.oldest_blocked_slot == 0 ==> is_reported(
                events,
                "blocked_slot_exit"@,
                signed_decimal(before.oldest_blocked_slot as int),
            ) && is_reported(events, "recovery_end"@, "0"@)
        }),
{
    let a = blocked_events(before.oldest_blocked_slot, after.oldest_blocked_slot);
    if a.len() > 0 {
        lemma_parts(before, after, a[0].name, a[0].value);
        lemma_parts(before, after, a[1].name, a[1].value);
        assert(is_reported(a, a[0].name, a[0].value));
        assert(is_reported(a, a[1].name, a[1].value));
    }
}

/// Another view is reported, and for every counter that rose by how much it did.
pub proof fn rises_and_views_are_reported(before: Sample, after: Sample)
    ensures
        before.current_view != after.current_view ==> is_reported(
            events_between(before, after),
            "view_change"@,
            signed_decimal(after.current_view as int),
        ),
        before.fast_path_commits < after.fast_path_commits ==> is_reported(
            events_between(before, after),
            "fast_path_commit"@,
            decimal((after.fast_path_commits - before.fast_path_commits) as nat),
        ),
        before.slow_path_commits < after.slow_path_commits ==> is_reported(
            events_between(before, after),
            "slow_path_commit"@,
            decimal((after.slow_path_commits - before.slow_path_commits) as nat),
        ),
        before.view_changes < after.view_changes ==> is_reported(
            events_between(before, after),
            "view_change_total"@,
            decimal((after.view_changes - before.view_changes) as nat),
        ),
        before.leader_changes < after.leader_changes ==> is_reported(
            events_between(before, after),
            "leader_change"@,
            decimal((after.leader_changes - before.leader_changes) as nat),
        ),
        before.leader_timeouts < after.leader_timeouts ==> is_reported(
            events_between(before, after),
            "leader_timeout"@,
            decimal((after.leader_timeouts - before.leader_timeouts) as nat),
        ),
{
    let b = view_events(before.current_view, after.current_view);
    if before.current_view != after.current_view {
        assert(is_reported(b, b[0].name, b[0].value));
        lemma_parts(before, after, "view_change"@, b[0].value);
    }
    lemma_rise(before, after, "fast_path_commit"@, before.fast_path_commits, after.fast_path_commits);
    lemma_rise(before, after, "slow_path_commit"@, before.slow_path_commits, after.slow_path_commits);
    lemma_rise(before, after, "view_change_total"@, before.view_changes, after.view_changes);
    lemma_rise(before, after, "leader_change"@, before.leader_changes, after.leader_changes);
    lemma_rise(before, after, "leader_timeout"@, before.leader_timeouts, after.leader_timeouts);
}

/// A rise that is reported in a part is reported in the whole.
proof fn lemma_rise(before: Sample, after: Sample, name: Seq<char>, low: u64, high: u64)
    ensures
        low < high ==> ({
            let value = decimal((high - low) as nat);
            &&& is_reported(rise_events(name, low, high), name, value)
            &&& (is_a_counter(before, after, name, low, high) ==> is_reported(
                events_between(before, after),
                name,
                value,
            ))
        }),
{
    if low < high {
        let part = rise_events(name, low, high);
        assert(part[0].name == name);
        lemma_parts(before, after, name, decimal((high - low) as nat));
    }
}

/// The counter `name` went from `low` to `high`.
spec fn is_a_counter(
    before: Sample,
    after: Sample,
    name: Seq<char>,
    low: u64,
    high: u64,
) -> bool {
    ||| name == "fast_path_commit"@ && low == before.fast_path_commits && high
        == after.fast_path_commits
    ||| name == "slow_path_commit"@ && low == before.slow_path_commits && high
        == after.slow_path_commits
    ||| name == "view_change_total"@ && low == before.view_changes && high == after.view_changes
    ||| name == "leader_change"@ && low == before.leader_changes && high == after.leader_changes
    ||| name == "leader_timeout"@ && low == before.leader_timeouts && high == after.leader_timeouts
}

proof fn lemma_reported_in_either(
    a: Seq<EventView>,
    b: Seq<EventView>,
    name: Seq<char>,
    value: Seq<char>,
)
    ensures
        is_reported(a, name, value) || is_reported(b, name, value) ==> is_reported(
            a + b,
            name,
            value,
        ),
{
    if is_reported(a, name, value) {
        let i = choose|i: int|
            0 <= i < a.len() && (#[trigger] a[i]).name == name && a[i].value == value;
        assert((a + b)[i] == a[i]);
    }
    if is_reported(b, name, value) {
        let i = choose|i: int|
            0 <= i < b.len() && (#[trigger] b[i]).name == name && b[i].value == value;
        assert((a + b)[a.len() + i] == b[i]);
    }
}

/// What is reported in a part is reported in the whole.
proof fn lemma_parts(before: Sample, after: Sample, name: Seq<char>, value: Seq<char>)
    ensures
        ({
            let a = blocked_events(before.oldest_blocked_slot, after.oldest_blocked_slot);
            let b = view_events(before.current_view, after.current_view);
            let f = rise_events(
                "fast_path_commit"@,
                before.fast_path_commits,
                after.fast_path_commits,
            );
            let g = rise_events(
                "slow_path_commit"@,
                before.slow_path_commits,
                after.slow_path_commits,
            );
            let h = rise_events("view_change_total"@, before.view_changes, after.view_changes);
            let k = rise_events("leader_change"@, before.leader_changes, after.leader_changes);
            let l = rise_events("leader_timeout"@, before.leader_timeouts, after.leader_timeouts);
            is_reported(a, name, value) || is_reported(b, name, value) || is_reported(
                f,
                name,
                value,
            ) || is_reported(g, name, value) || is_reported(h, name, value) || is_reported(
                k,
                name,
                value,
            ) || is_reported(l, name, value) ==> is_reported(
                events_between(before, after),
                name,
                value,
            )
        }),
{
    let a = blocked_events(before.oldest_blocked_slot, after.oldest_blocked_slot);
    let b = view_events(before.current_view, after.current_view);
    let f = rise_events("fast_path_commit"@, before.fast_path_commits, after.fast_path_commits);
    let g = rise_events("slow_path_commit"@, before.slow_path_commits, after.slow_path_commits);
    let h = rise_events("view_change_total"@, before.view_changes, after.view_changes);
    let k = rise_events("leader_change"@, before.leader_changes, after.leader_changes);
    let l = rise_events("leader_timeout"@, before.leader_timeouts, after.leader_timeouts);
    lemma_whole(a, b, f, g, h, k, l, name, value);
}

proof fn lemma_whole(
    a: Seq<EventView>,
    b: Seq<EventView>,
    f: Seq<EventView>,
    g: Seq<EventView>,
    h: Seq<EventView>,
    k: Seq<EventView>,
    l: Seq<EventView>,
    name: Seq<char>,
    value: Seq<char>,
)
    ensures
        is_reported(a, name, value) || is_reported(b, name, value) || is_reported(f, name, value)
            || is_reported(g, name, value) || is_reported(h, name, value) || is_reported(
            k,
            name,
            value,
        ) || is_reported(l, name, value) ==> is_reported(
            a + b + f + g + h + k + l,
            name,
            value,
        ),
{
    lemma_reported_in_either(a, b, name, value);
    lemma_reported_in_either(a + b, f, name, value);
    lemma_reported_in_either(a + b + f, g, name, value);
    lemma_reported_in_either(a + b + f + g, h, name, value);
    lemma_reported_in_either(a + b + f + g + h, k, name, value);
    lemma_reported_in_either(a + b + f + g + h + k, l, name, value);
}

/// The fields of a row stand in the order of the header: the time, the role and the node, and then what
/// the row is about.
pub proof fn fields_follow_the_header(
    ts_ms: nat,
    state: EventState,
    event: Seq<char>,
    value: Seq<char>,
    node: Seq<char>,
    s: FastState,
)
    ensures
        ({
            let f = event_fields(ts_ms, state, event, value);
            &&& f.len() == 5
            &&& f[0] == decimal(ts_ms) && f[1] == state.role@ && f[2] == state.node@
            &&& f[3] == event && f[4] == value
        }),
        ({
            let f = fast_state_fields(ts_ms, node, s);
            &&& f.len() == 8
            &&& f[0] == decimal(ts_ms) && f[1] == "primary"@ && f[2] == node
            &&& f[3] == signed_decimal(s.current_slot as int)
            &&& f[4] == signed_decimal(s.oldest_blocked_slot as int)
            &&& f[5] == signed_decimal(s.current_view as int)
            &&& f[6] == signed_decimal(s.inflight_holes as int)
            &&& f[7] == signed_decimal(s.hole_dependents as int)
        }),
{
}

} // verus!
