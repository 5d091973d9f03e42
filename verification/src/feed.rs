//! The client's feed of semantic events.

use vstd::prelude::*;

use crate::card::clock_reads;
use crate::card::format_clock;
use crate::events::WorldEvent;
use crate::events::WorldEventKind;
use crate::identity::PlayerTaskId;
use crate::identity::SimId;
use crate::ord_map::OrdMap;
use crate::orders::CancellationOutcome;
use crate::snapshot::CottageSnapshot;
use crate::text::decimal;
use crate::text::decimal_of;
use crate::text::said;
use crate::text::said_all;

verus! {

/// How many entries the feed shows.
pub const VISIBLE_EVENTS: usize = 4;

/// Cursor for the append-only immutable event ledger. This keeps display
/// messages one-time while preserving the ledger for simulation assertions.
pub struct SemanticEventFeed {
    pub consumed_events: usize,
    pub entries: Vec<String>,
}

impl Default for SemanticEventFeed {
    fn default() -> (r: Self)
        ensures
            r.consumed_events == 0,
            r.entries@.len() == 0,
    {
        SemanticEventFeed { consumed_events: 0, entries: Vec::new() }
    }
}

/// What a cancelled order gave back.
pub open spec fn release_reads(outcome: CancellationOutcome) -> Seq<char> {
    match outcome {
        CancellationOutcome::Queued => "removed from queue"@,
        CancellationOutcome::Active => "toilet released"@,
        CancellationOutcome::Paused => "removed from queue"@,
    }
}

/// How those who saw a seat being taken react.
pub open spec fn reaction_reads(witnesses: Seq<SimId>, snapshot: CottageSnapshot) -> Seq<char> {
    if witnesses.len() == 0 {
        "No one seems to have noticed."@
    } else {
        snapshot.spec_resident_name(witnesses[0]) + " tuts."@
    }
}

/// How an event is told, where it is told at all. A cancellation is told only
/// where the client asked for it.
pub open spec fn event_reads(
    kind: WorldEventKind,
    snapshot: CottageSnapshot,
    outcomes: Map<PlayerTaskId, CancellationOutcome>,
) -> Option<Seq<char>> {
    match kind {
        WorldEventKind::ObjectUseWaited { resident, .. } => Some(
            snapshot.spec_resident_name(resident) + " is waiting for the toilet."@,
        ),
        WorldEventKind::ObjectUseStarted { resident, .. } => Some(
            snapshot.spec_resident_name(resident) + " started using the toilet."@,
        ),
        WorldEventKind::ObjectUseCompleted { resident, .. } => Some(
            snapshot.spec_resident_name(resident) + " finished using the toilet."@,
        ),
        WorldEventKind::TaskCancelled { task, resident, .. } => if outcomes.contains_key(task) {
            Some(
                "Order #"@ + decimal_of(task.0 as nat) + " for "@ + snapshot.spec_resident_name(
                    resident,
                ) + " cancelled; "@ + release_reads(outcomes[task]) + "."@,
            )
        } else {
            None
        },
        WorldEventKind::NeighbourInvitation { event_at, .. } => Some(
            "A neighbour invited the household to the "@ + clock_reads(event_at) + " quiz."@,
        ),
        WorldEventKind::QuizArrived { resident } => Some(
            snapshot.spec_resident_name(resident) + " arrived at the King's Head for the quiz."@,
        ),
        WorldEventKind::PargeterSeatTaken { participant, witnessed_by } => Some(
            snapshot.spec_resident_name(participant) + " took Mr Pargeter's corner seat. "@
                + reaction_reads(witnessed_by@, snapshot) + " The household now know it is his."@,
        ),
        _ => None,
    }
}

/// The remembered cancellations once an event is told.
pub open spec fn outcomes_after(
    kind: WorldEventKind,
    outcomes: Map<PlayerTaskId, CancellationOutcome>,
) -> Map<PlayerTaskId, CancellationOutcome> {
    match kind {
        WorldEventKind::TaskCancelled { task, .. } => outcomes.remove(task),
        _ => outcomes,
    }
}

/// The remembered cancellations once events are told.
pub open spec fn outcomes_after_all(
    events: Seq<WorldEvent>,
    outcomes: Map<PlayerTaskId, CancellationOutcome>,
) -> Map<PlayerTaskId, CancellationOutcome>
    decreases events.len(),
{
    if events.len() == 0 {
        outcomes
    } else {
        outcomes_after(events.last().kind, outcomes_after_all(events.drop_last(), outcomes))
    }
}

/// The entries that events add to the feed.
pub open spec fn told(
    events: Seq<WorldEvent>,
    snapshot: CottageSnapshot,
    outcomes: Map<PlayerTaskId, CancellationOutcome>,
) -> Seq<Seq<char>>
    decreases events.len(),
{
    if events.len() == 0 {
        Seq::empty()
    } else {
        let earlier = events.drop_last();
        match event_reads(events.last().kind, snapshot, outcomes_after_all(earlier, outcomes)) {
            Some(entry) => told(earlier, snapshot, outcomes).push(entry),
            None => told(earlier, snapshot, outcomes),
        }
    }
}

/// The last few entries.
pub open spec fn last_few(entries: Seq<Seq<char>>) -> Seq<Seq<char>> {
    if entries.len() > VISIBLE_EVENTS {
        entries.skip(entries.len() - VISIBLE_EVENTS)
    } else {
        entries
    }
}

/// The events that a feed has not consumed.
pub open spec fn unread(events: Seq<WorldEvent>, consumed: int) -> Seq<WorldEvent> {
    if consumed <= events.len() {
        events.skip(consumed)
    } else {
        Seq::empty()
    }
}

/// Tells an event, where it is told at all. Telling a cancellation forgets it.
pub fn semantic_event_label(
    kind: &WorldEventKind,
    snapshot: &CottageSnapshot,
    cancellation_outcomes: &mut OrdMap<PlayerTaskId, CancellationOutcome>,
) -> (r: Option<String>)
    requires
        old(cancellation_outcomes).wf(),
    ensures
        final(cancellation_outcomes).wf(),
        final(cancellation_outcomes)@ == outcomes_after(*kind, old(cancellation_outcomes)@),
        said(r) == event_reads(*kind, *snapshot, old(cancellation_outcomes)@),
{
    match kind {
        WorldEventKind::ObjectUseWaited { resident, .. } => {
            let mut text: String = snapshot.resident_name(*resident).to_owned();
            text.append(" is waiting for the toilet.");
            Some(text)
        },
        WorldEventKind::ObjectUseStarted { resident, .. } => {
            let mut text: String = snapshot.resident_name(*resident).to_owned();
            text.append(" started using the toilet.");
            Some(text)
        },
        WorldEventKind::ObjectUseCompleted { resident, .. } => {
            let mut text: String = snapshot.resident_name(*resident).to_owned();
            text.append(" finished using the toilet.");
            Some(text)
        },
        WorldEventKind::TaskCancelled { task, resident, .. } => {
            let outcome: CancellationOutcome = match cancellation_outcomes.remove(task) {
                Some(outcome) => outcome,
                None => {
                    return None;
                },
            };
            let mut text: String = "Order #".to_owned();
            text.append(decimal(task.0).as_str());
            text.append(" for ");
            text.append(snapshot.resident_name(*resident));
            text.append(" cancelled; ");
            text.append(
                match outcome {
                    CancellationOutcome::Queued => "removed from queue",
                    CancellationOutcome::Active => "toilet released",
                    CancellationOutcome::Paused => "removed from queue",
                },
            );
            text.append(".");
            Some(text)
        },
        WorldEventKind::NeighbourInvitation { event_at, .. } => {
            let mut text: String = "A neighbour invited the household to the ".to_owned();
            text.append(format_clock(*event_at).as_str());
            text.append(" quiz.");
            Some(text)
        },
        WorldEventKind::QuizArrived { resident } => {
            let mut text: String = snapshot.resident_name(*resident).to_owned();
            text.append(" arrived at the King's Head for the quiz.");
            Some(text)
        },
        WorldEventKind::PargeterSeatTaken { participant, witnessed_by } => {
            let mut text: String = snapshot.resident_name(*participant).to_owned();
            text.append(" took Mr Pargeter's corner seat. ");
            let mut reaction: String = String::new();
            if witnessed_by.len() == 0 {
                reaction = "No one seems to have noticed.".to_owned();
            } else {
                reaction = snapshot.resident_name(witnessed_by[0]).to_owned();
                reaction.append(" tuts.");
            }
            text.append(reaction.as_str());
            text.append(" The household now know it is his.");
            Some(text)
        },
        _ => None,
    }
}

/// Tells every event that the feed has not consumed, each once, and keeps the
/// last few entries.
pub fn consume_semantic_events(
    feed: &mut SemanticEventFeed,
    events: &[WorldEvent],
    snapshot: &CottageSnapshot,
    cancellation_outcomes: &mut OrdMap<PlayerTaskId, CancellationOutcome>,
)
    requires
        old(cancellation_outcomes).wf(),
    ensures
        final(cancellation_outcomes).wf(),
        final(feed).consumed_events == events@.len(),
        said_all(final(feed).entries@) == last_few(
            said_all(old(feed).entries@) + told(
                unread(events@, old(feed).consumed_events as int),
                *snapshot,
                old(cancellation_outcomes)@,
            ),
        ),
        final(cancellation_outcomes)@ == outcomes_after_all(
            unread(events@, old(feed).consumed_events as int),
            old(cancellation_outcomes)@,
        ),
{
    let start: usize = feed.consumed_events;
    let ghost fresh = unread(events@, start as int);
    let ghost before = said_all(feed.entries@);
    let ghost outcomes = cancellation_outcomes@;
    let mut i: usize = start;
    assert(fresh.take(0) =~= Seq::<WorldEvent>::empty());
    assert(before + told(fresh.take(0), *snapshot, outcomes) =~= before);
    while i < events.len()
        invariant
            start <= i,
            i <= events@.len() || i == start,
            fresh == unread(events@, start as int),
            cancellation_outcomes.wf(),
            said_all(feed.entries@) == before + told(fresh.take(i - start), *snapshot, outcomes),
            cancellation_outcomes@ == outcomes_after_all(fresh.take(i - start), outcomes),
        decreases events@.len() - i,
    {
        let ghost k = i - start;
        assert(fresh[k] == events@[i as int]);
        assert(fresh.take(k + 1).drop_last() =~= fresh.take(k));
        assert(fresh.take(k + 1).last() == fresh[k]);
        let ghost was = feed.entries@;
        if let Some(entry) = semantic_event_label(&events[i].kind, snapshot, cancellation_outcomes) {
            feed.entries.push(entry);
            assert(said_all(feed.entries@) =~= said_all(was).push(entry@));
            assert(said_all(feed.entries@) =~= before + told(fresh.take(k + 1), *snapshot, outcomes));
        }
        i = i + 1;
    }
    assert(fresh.take(i - start) =~= fresh);
    feed.consumed_events = events.len();
    let ghost all = feed.entries@;
    let ghost told_now = said_all(all);
    while feed.entries.len() > VISIBLE_EVENTS
        invariant
            feed.consumed_events == events@.len(),
            feed.entries@.len() <= all.len(),
            feed.entries@ == all.skip(all.len() - feed.entries@.len()),
            feed.entries@.len() >= VISIBLE_EVENTS || feed.entries@ == all,
        decreases feed.entries@.len(),
    {
        let ghost kept = feed.entries@.len();
        feed.entries.remove(0);
        assert(feed.entries@ =~= all.skip(all.len() - kept).skip(1));
        assert(all.skip(all.len() - kept).skip(1) =~= all.skip(all.len() - (kept - 1)));
    }
    assert(said_all(feed.entries@) =~= last_few(told_now));
}

/// How entries read one to a line.
pub open spec fn lines_read(entries: Seq<String>) -> Seq<char>
    decreases entries.len(),
{
    if entries.len() == 0 {
        Seq::empty()
    } else if entries.len() == 1 {
        entries[0]@
    } else {
        lines_read(entries.drop_last()) + "\n"@ + entries.last()@
    }
}

/// The feed, one entry to a line.
#[must_use]
pub fn feed_text(feed: &SemanticEventFeed) -> (r: String)
    ensures
        r@ == lines_read(feed.entries@),
{
    if feed.entries.len() == 0 {
        return String::new();
    }
    let mut text: String = feed.entries[0].clone();
    let mut i: usize = 1;
    while i < feed.entries.len()
        invariant
            1 <= i <= feed.entries@.len(),
            text@ == lines_read(feed.entries@.take(i as int)),
        decreases feed.entries@.len() - i,
    {
        assert(feed.entries@.take(i + 1).drop_last() =~= feed.entries@.take(i as int));
        assert(feed.entries@.take(i + 1).last() == feed.entries@[i as int]);
        text.append("\n");
        text.append(feed.entries[i].as_str());
        i = i + 1;
    }
    assert(feed.entries@.take(i as int) =~= feed.entries@);
    text
}

/// Every event is told once: once all are consumed, nothing is left to tell.
pub proof fn law_events_are_told_once(events: Seq<WorldEvent>)
    ensures
        unread(events, events.len() as int).len() == 0,
{
}

/// A cancellation is told once: telling it forgets it.
pub proof fn law_cancellation_is_told_once(
    kind: WorldEventKind,
    snapshot: CottageSnapshot,
    outcomes: Map<PlayerTaskId, CancellationOutcome>,
)
    requires
        kind is TaskCancelled,
    ensures
        event_reads(kind, snapshot, outcomes_after(kind, outcomes)) is None,
{
}

} // verus!
