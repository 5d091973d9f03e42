//! What the client promises: receipts, cancel controls, the event feed, the card
//! and the camera.

use vstd::prelude::*;

use crate::camera::zoomed;
use crate::camera::CameraControl;
use crate::camera::CottageCamera;
use crate::card::clock_reads;
use crate::card::is_resident;
use crate::card::orders_read;
use crate::card::selected_reads;
use crate::card::spec_movement;
use crate::card::status_reads;
use crate::card::tasks_read;
use crate::clock::TimeOfDay;
use crate::driver::later;
use crate::events::PlayerCommandRejection;
use crate::events::WorldEvent;
use crate::events::WorldEventKind;
use crate::feed::event_reads;
use crate::feed::last_few;
use crate::feed::lines_read;
use crate::feed::outcomes_after;
use crate::feed::outcomes_after_all;
use crate::feed::told;
use crate::feed::unread;
use crate::identity::PlayerTaskId;
use crate::identity::SimId;
use crate::listing::lemma_first_where_at;
use crate::listing::lemma_first_where_none;
use crate::orders::cancellable;
use crate::orders::is_bound;
use crate::orders::is_receipt;
use crate::orders::published_receipt;
use crate::orders::since;
use crate::orders::slot_binding;
use crate::orders::CancelBinding;
use crate::orders::CancellationOutcome;
use crate::orders::Desk;
use crate::orders::PendingAction;
use crate::orders::PendingOrder;
use crate::presentation::is_clothing_row;
use crate::presentation::varied;
use crate::snapshot::ClientPerception;
use crate::snapshot::ClientPlayerTaskSnapshot;
use crate::snapshot::ClientPlayerTaskState;
use crate::snapshot::ClientResidentSnapshot;
use crate::snapshot::CottageSnapshot;
use crate::text::decimal_of;
use crate::text::digit;
use crate::village::Village;

verus! {

// ---------------------------------------------------------------------------
// Numbers and times.
// ---------------------------------------------------------------------------

/// The number that decimal digits stand for.
pub open spec fn number_read(text: Seq<char>) -> int
    decreases text.len(),
{
    if text.len() == 0 {
        0
    } else {
        number_read(text.drop_last()) * 10 + (text.last() as int - '0' as int)
    }
}

/// A number is written with decimal digits only, without a leading zero but for
/// zero itself, and reading them gives the number back.
pub proof fn law_numbers_are_written_in_decimal(n: nat)
    ensures
        number_read(decimal_of(n)) == n,
        decimal_of(n).len() > 0,
        forall|i: int|
            0 <= i < decimal_of(n).len() ==> '0' as int <= (#[trigger] decimal_of(n)[i]) as int
                && decimal_of(n)[i] as int <= '9' as int,
        n > 0 ==> decimal_of(n)[0] != '0',
        n == 0 ==> decimal_of(n).len() == 1,
    decreases n,
{
    let text = decimal_of(n);
    if n < 10 {
        assert(digit(n) as int == 48 + n);
        assert(text.drop_last() =~= Seq::<char>::empty());
        assert(number_read(text.drop_last()) == 0);
    } else {
        law_numbers_are_written_in_decimal(n / 10);
        assert(digit(n % 10) as int == 48 + n % 10);
        assert(text.drop_last() =~= decimal_of(n / 10));
        assert forall|i: int| 0 <= i < text.len() implies '0' as int <= (#[trigger] text[i]) as int
            && text[i] as int <= '9' as int by {
            if i < text.len() - 1 {
                assert(decimal_of(n / 10)[i] == text[i]);
            }
        }
        assert(text[0] == decimal_of(n / 10)[0]);
    }
}

/// A time of day is written as two digits for the hour, a colon and two digits
/// for the minute.
pub proof fn law_clock_shows_two_digits_each(time: TimeOfDay)
    requires
        time.hour < 24,
        time.minute < 60,
    ensures
        clock_reads(time).len() == 5,
        clock_reads(time)[0] as int == '0' as int + time.hour as int / 10,
        clock_reads(time)[1] as int == '0' as int + time.hour as int % 10,
        clock_reads(time)[2] == ':',
        clock_reads(time)[3] as int == '0' as int + time.minute as int / 10,
        clock_reads(time)[4] as int == '0' as int + time.minute as int % 10,
{
    reveal_strlit(":");
    lemma_two_digits(time.hour as nat);
    lemma_two_digits(time.minute as nat);
}

proof fn lemma_two_digits(n: nat)
    requires
        n < 60,
    ensures
        crate::text::two_digits_of(n).len() == 2,
        crate::text::two_digits_of(n)[0] as int == 48 + n / 10,
        crate::text::two_digits_of(n)[1] as int == 48 + n % 10,
{
    reveal_strlit("0");
    reveal_with_fuel(decimal_of, 2);
    if n < 10 {
        assert(digit(n) as int == 48 + n);
        assert("0"@[0] == '0');
    } else {
        assert(digit(n / 10) as int == 48 + n / 10);
        assert(digit(n % 10) as int == 48 + n % 10);
        assert(decimal_of(n / 10) == seq![digit(n / 10)]);
    }
}

// ---------------------------------------------------------------------------
// Receipts and cancel controls.
// ---------------------------------------------------------------------------

/// A pending command's receipt is the first answer about its task among the
/// events published since it was submitted, and says whether the order or the
/// cancellation, by its number, was accepted or why it was rejected.
pub proof fn law_receipt_is_the_first_answer(
    pending: PendingOrder,
    events: Seq<WorldEvent>,
    i: int,
)
    requires
        pending.receipt_start <= i < events.len(),
        forall|j: int|
            pending.receipt_start <= j < i ==> match (#[trigger] events[j]).kind {
                WorldEventKind::PlayerCommandAccepted { task } => task != pending.task,
                WorldEventKind::PlayerCommandRejected { task, .. } => task != pending.task,
                _ => true,
            },
    ensures
        ({
            let lead = (if pending.action is Order {
                "Order"@
            } else {
                "Cancellation"@
            }) + " #"@ + decimal_of(pending.task.0 as nat);
            match events[i].kind {
                WorldEventKind::PlayerCommandAccepted { task } => task == pending.task
                    ==> published_receipt(pending, events) == Some(lead + " accepted."@),
                WorldEventKind::PlayerCommandRejected { task, reason } => task == pending.task
                    ==> published_receipt(pending, events) == Some(
                    lead + " rejected: "@ + (match reason {
                        PlayerCommandRejection::DuplicateTask => "duplicate task"@,
                        PlayerCommandRejection::InvalidMoveTarget => "unreachable tile"@,
                        PlayerCommandRejection::InvalidUseTarget => "invalid fixture"@,
                        PlayerCommandRejection::ResidentBusy => "resident busy"@,
                        PlayerCommandRejection::UnknownResident => "unknown resident"@,
                        PlayerCommandRejection::UnknownTask => "unknown task"@,
                        PlayerCommandRejection::TaskNotCancellable => "task cannot be cancelled"@,
                    }) + "."@,
                ),
                _ => true,
            }
        }),
{
    let start = pending.receipt_start as int;
    let rest = since(events, start);
    let p = is_receipt(pending.task);
    assert forall|j: int| 0 <= j < i - start implies !p(#[trigger] rest[j]) by {
        assert(rest[j] == events[start + j]);
    }
    assert(rest[i - start] == events[i]);
    if p(events[i]) {
        lemma_first_where_at(rest, p, i - start);
    }
}

/// Without an answer since it was submitted, a command has no receipt.
pub proof fn law_unanswered_command_has_no_receipt(pending: PendingOrder, events: Seq<WorldEvent>)
    requires
        forall|j: int|
            pending.receipt_start <= j < events.len() ==> match (#[trigger] events[j]).kind {
                WorldEventKind::PlayerCommandAccepted { task } => task != pending.task,
                WorldEventKind::PlayerCommandRejected { task, .. } => task != pending.task,
                _ => true,
            },
    ensures
        published_receipt(pending, events) is None,
{
    let start = pending.receipt_start as int;
    let rest = since(events, start);
    let p = is_receipt(pending.task);
    assert forall|j: int| 0 <= j < rest.len() implies !p(#[trigger] rest[j]) by {
        assert(rest[j] == events[start + j]);
    }
    lemma_first_where_none(rest, p);
}

/// A receipt replaces the command in flight, and what is in flight stays so
/// without one. Neither touches ids or remembered cancellations.
pub proof fn law_receipt_ends_what_is_pending(desk: Desk, events: Seq<WorldEvent>)
    ensures
        ({
            let after = desk.receive(events);
            &&& after.next_task_id == desk.next_task_id
            &&& after.cancellation_outcomes == desk.cancellation_outcomes
            &&& match desk.pending {
                Some(pending) => match published_receipt(pending, events) {
                    Some(receipt) => after.pending is None && after.receipt == Some(receipt),
                    None => after == desk,
                },
                None => after == desk,
            }
        }),
{
}

/// The order line names the command in flight: an order as pending, and a
/// cancellation by the state its order was in. Otherwise it shows the last
/// receipt, or nothing before the first.
pub proof fn law_order_line_names_the_command_in_flight(desk: Desk)
    ensures
        match desk.pending {
            Some(pending) => desk.feedback() == (if pending.action is Order {
                "Order #"@
            } else if pending.action == PendingAction::Cancellation(CancellationOutcome::Active) {
                "Cancelling active order #"@
            } else if pending.action == PendingAction::Cancellation(CancellationOutcome::Paused) {
                "Removing paused order #"@
            } else {
                "Removing queued order #"@
            }) + decimal_of(pending.task.0 as nat) + (if pending.action is Order {
                " pending\u{2026}"@
            } else {
                "..."@
            }),
            None => desk.receipt is Some ==> desk.feedback() == desk.receipt->0,
        },
        desk.pending is None && desk.receipt is None ==> desk.feedback().len() == 0,
{
}

/// A submitted order has the next free number, awaits a receipt among the
/// events still to come, and clears the line; a cancellation has the number of
/// its order, takes none, and is remembered with the state it was bound in.
pub proof fn law_submissions_await_their_own_receipts(
    desk: Desk,
    binding: CancelBinding,
    ledger_len: usize,
)
    requires
        desk.next_task_id < u64::MAX,
    ensures
        ({
            let ordered = desk.submitted(ledger_len);
            let cancelled = desk.cancelling(binding, ledger_len);
            &&& ordered.next_task_id == desk.next_task_id + 1
            &&& ordered.pending is Some
            &&& ordered.pending->0.task == PlayerTaskId(desk.next_task_id)
            &&& ordered.pending->0.action is Order
            &&& ordered.pending->0.receipt_start == ledger_len
            &&& ordered.receipt is None
            &&& ordered.cancellation_outcomes == desk.cancellation_outcomes
            &&& cancelled.next_task_id == desk.next_task_id
            &&& cancelled.pending is Some
            &&& cancelled.pending->0.task == binding.task
            &&& cancelled.pending->0.action == PendingAction::Cancellation(binding.outcome)
            &&& cancelled.pending->0.receipt_start == ledger_len
            &&& cancelled.receipt is None
            &&& cancelled.cancellation_outcomes == desk.cancellation_outcomes.insert(
                binding.task,
                binding.outcome,
            )
        }),
{
}

/// The resident shown under an id is the first in the snapshot that has it, and
/// there is one exactly where any has.
pub proof fn law_resident_is_shown_under_its_id(snapshot: CottageSnapshot, id: SimId, i: int)
    ensures
        0 <= i < snapshot.residents@.len() && snapshot.residents@[i].id == id && (forall|j: int|
            0 <= j < i ==> (#[trigger] snapshot.residents@[j]).id != id) ==> snapshot.shown(id)
            == Some(snapshot.residents@[i]) && snapshot.spec_resident_name(id)
            == snapshot.residents@[i].display_name@,
        (forall|j: int|
            0 <= j < snapshot.residents@.len() ==> (#[trigger] snapshot.residents@[j]).id != id)
            ==> snapshot.shown(id) is None && snapshot.spec_resident_name(id) == "A newcomer"@,
{
    let shown = snapshot.residents@;
    let is_it = is_resident(id);
    if 0 <= i < shown.len() && shown[i].id == id && (forall|j: int|
        0 <= j < i ==> (#[trigger] snapshot.residents@[j]).id != id) {
        assert forall|j: int| 0 <= j < i implies !is_it(#[trigger] shown[j]) by {
            assert(snapshot.residents@[j].id != id);
        }
        lemma_first_where_at(shown, is_it, i);
    }
    if forall|j: int| 0 <= j < shown.len() ==> (#[trigger] snapshot.residents@[j]).id != id {
        assert forall|j: int| 0 <= j < shown.len() implies !is_it(#[trigger] shown[j]) by {
            assert(snapshot.residents@[j].id != id);
        }
        lemma_first_where_none(shown, is_it);
    }
}

/// What can be cancelled is every order of the selected resident, head first,
/// each under its id and in the state it is shown in; nothing where nobody
/// shown is selected.
pub proof fn law_every_shown_order_can_be_cancelled(
    selected: SimId,
    snapshot: CottageSnapshot,
    i: int,
)
    ensures
        cancellable(None, snapshot).len() == 0,
        snapshot.shown(selected) is None ==> cancellable(Some(selected), snapshot).len() == 0,
        snapshot.shown(selected) matches Some(resident) ==> {
            let offered = cancellable(Some(selected), snapshot);
            let orders = resident.player_tasks@;
            &&& offered.len() == orders.len()
            &&& 0 <= i < orders.len() ==> {
                &&& offered[i].task == orders[i].id
                &&& offered[i].outcome == CancellationOutcome::Queued <==> orders[i].state
                    == ClientPlayerTaskState::Queued
                &&& offered[i].outcome == CancellationOutcome::Active <==> orders[i].state
                    == ClientPlayerTaskState::Active
                &&& offered[i].outcome == CancellationOutcome::Paused <==> orders[i].state
                    == ClientPlayerTaskState::Paused
            }
        },
{
}

/// A cancel slot is bound to the order at its place in the queue, and to none
/// while a command is in flight or where the queue ends before it.
pub proof fn law_cancel_slots_follow_the_queue(
    pending: Option<PendingOrder>,
    selected: Option<SimId>,
    snapshot: CottageSnapshot,
    index: int,
)
    requires
        0 <= index,
    ensures
        ({
            let offered = cancellable(selected, snapshot);
            let bound = slot_binding(pending, selected, snapshot, index);
            &&& pending is Some ==> bound is None
            &&& index >= offered.len() ==> bound is None
            &&& pending is None && index < offered.len() ==> bound == Some(offered[index])
        }),
{
}

/// Only a slot that exists and is bound can be pressed to effect.
pub proof fn law_only_bound_slots_act(bindings: Seq<Option<CancelBinding>>, index: usize)
    ensures
        is_bound(bindings)(index) <==> index < bindings.len() && bindings[index as int] is Some,
{
}

// ---------------------------------------------------------------------------
// The feed.
// ---------------------------------------------------------------------------

/// Waiting for, starting and finishing a use are told by the name of the
/// resident; walking, receipts, recoveries and completed ticks are not told.
pub proof fn law_uses_are_told_by_name(
    kind: WorldEventKind,
    snapshot: CottageSnapshot,
    outcomes: Map<PlayerTaskId, CancellationOutcome>,
)
    ensures
        match kind {
            WorldEventKind::ObjectUseWaited { resident, .. } => event_reads(
                kind,
                snapshot,
                outcomes,
            ) == Some(snapshot.spec_resident_name(resident) + " is waiting for the toilet."@),
            WorldEventKind::ObjectUseStarted { resident, .. } => event_reads(
                kind,
                snapshot,
                outcomes,
            ) == Some(snapshot.spec_resident_name(resident) + " started using the toilet."@),
            WorldEventKind::ObjectUseCompleted { resident, .. } => event_reads(
                kind,
                snapshot,
                outcomes,
            ) == Some(snapshot.spec_resident_name(resident) + " finished using the toilet."@),
            WorldEventKind::TaskCancelled { .. } => true,
            WorldEventKind::NeighbourInvitation { event_at, .. } => event_reads(
                kind,
                snapshot,
                outcomes,
            ) == Some(
                "A neighbour invited the household to the "@ + clock_reads(event_at) + " quiz."@,
            ),
            WorldEventKind::QuizArrived { resident } => event_reads(kind, snapshot, outcomes)
                == Some(
                snapshot.spec_resident_name(resident)
                    + " arrived at the King's Head for the quiz."@,
            ),
            WorldEventKind::PargeterSeatTaken { participant, witnessed_by } => event_reads(
                kind,
                snapshot,
                outcomes,
            ) == Some(
                snapshot.spec_resident_name(participant) + " took Mr Pargeter's corner seat. "@ + (
                if witnessed_by@.len() == 0 {
                    "No one seems to have noticed."@
                } else {
                    snapshot.spec_resident_name(witnessed_by@[0]) + " tuts."@
                }) + " The household now know it is his."@,
            ),
            _ => event_reads(kind, snapshot, outcomes) is None,
        },
{
}

/// A cancelled order is told where the client asked for it, with what it gave
/// back: the toilet where it was active, its place in the queue otherwise.
/// Telling it forgets it, and forgets nothing else.
pub proof fn law_cancellations_are_told_where_asked_for(
    kind: WorldEventKind,
    snapshot: CottageSnapshot,
    outcomes: Map<PlayerTaskId, CancellationOutcome>,
)
    ensures
        match kind {
            WorldEventKind::TaskCancelled { task, resident, .. } => {
                &&& !outcomes.contains_key(task) ==> event_reads(kind, snapshot, outcomes) is None
                &&& outcomes.contains_key(task) ==> event_reads(kind, snapshot, outcomes) == Some(
                    "Order #"@ + decimal_of(task.0 as nat) + " for "@ + snapshot.spec_resident_name(
                        resident,
                    ) + " cancelled; "@ + (if outcomes[task] == CancellationOutcome::Active {
                        "toilet released"@
                    } else {
                        "removed from queue"@
                    }) + "."@,
                )
                &&& outcomes_after(kind, outcomes) == outcomes.remove(task)
            },
            _ => outcomes_after(kind, outcomes) == outcomes,
        },
{
}

/// Events are told one after the other, each with what is still remembered of
/// cancellations, and in the order they were published.
pub proof fn law_events_are_told_in_turn(
    one: WorldEvent,
    first: Seq<WorldEvent>,
    then: Seq<WorldEvent>,
    snapshot: CottageSnapshot,
    outcomes: Map<PlayerTaskId, CancellationOutcome>,
)
    ensures
        told(Seq::empty(), snapshot, outcomes).len() == 0,
        outcomes_after_all(Seq::empty(), outcomes) == outcomes,
        told(seq![one], snapshot, outcomes) == match event_reads(one.kind, snapshot, outcomes) {
            Some(entry) => seq![entry],
            None => Seq::empty(),
        },
        outcomes_after_all(seq![one], outcomes) == outcomes_after(one.kind, outcomes),
        outcomes_after_all(first + then, outcomes) == outcomes_after_all(
            then,
            outcomes_after_all(first, outcomes),
        ),
        told(first + then, snapshot, outcomes) == told(first, snapshot, outcomes) + told(
            then,
            snapshot,
            outcomes_after_all(first, outcomes),
        ),
    decreases then.len(),
{
    assert(seq![one].drop_last() =~= Seq::<WorldEvent>::empty());
    assert(told(seq![one].drop_last(), snapshot, outcomes).len() == 0);
    assert(outcomes_after_all(seq![one].drop_last(), outcomes) == outcomes);
    match event_reads(one.kind, snapshot, outcomes) {
        Some(entry) => {
            assert(told(seq![one], snapshot, outcomes) =~= seq![entry]);
        },
        None => {
            assert(told(seq![one], snapshot, outcomes) =~= Seq::empty());
        },
    }
    let middle = outcomes_after_all(first, outcomes);
    if then.len() == 0 {
        assert(first + then =~= first);
        assert(told(first, snapshot, outcomes) + told(then, snapshot, middle) =~= told(
            first,
            snapshot,
            outcomes,
        ));
    } else {
        let rest = then.drop_last();
        assert((first + then).drop_last() =~= first + rest);
        law_events_are_told_in_turn(one, first, rest, snapshot, outcomes);
        assert(told(first + then, snapshot, outcomes) =~= told(first, snapshot, outcomes) + told(
            then,
            snapshot,
            middle,
        ));
    }
}

/// The feed keeps the last four entries, in order, and all where there are no
/// more. What it has not consumed is what stands behind what it has.
pub proof fn law_feed_keeps_the_last_four(
    entries: Seq<Seq<char>>,
    events: Seq<WorldEvent>,
    consumed: int,
    i: int,
)
    requires
        0 <= consumed,
        0 <= i,
    ensures
        entries.len() <= 4 ==> last_few(entries) == entries,
        entries.len() > 4 ==> last_few(entries).len() == 4 && (i < 4 ==> last_few(entries)[i]
            == entries[entries.len() - 4 + i]),
        consumed <= events.len() ==> unread(events, consumed).len() == events.len() - consumed,
        consumed > events.len() ==> unread(events, consumed).len() == 0,
        consumed + i < events.len() ==> unread(events, consumed)[i] == events[consumed + i],
{
}

/// Entries are shown one to a line, in order.
pub proof fn law_entries_are_shown_one_to_a_line(entries: Seq<String>, last: String)
    ensures
        lines_read(Seq::empty()).len() == 0,
        lines_read(seq![last]) == last@,
        entries.len() > 0 ==> lines_read(entries.push(last)) == lines_read(entries) + "\n"@
            + last@,
{
    assert(seq![last][0] == last);
    if entries.len() > 0 {
        assert(entries.push(last).drop_last() =~= entries);
    }
}

// ---------------------------------------------------------------------------
// The card.
// ---------------------------------------------------------------------------

/// The card lists a resident's orders head first, one to a line, each by its
/// number and state, and says so where there are none.
pub proof fn law_card_lists_orders_head_first(
    tasks: Seq<ClientPlayerTaskSnapshot>,
    last: ClientPlayerTaskSnapshot,
)
    ensures
        tasks_read(Seq::empty()) == "Current tasks:\n- None"@,
        tasks_read(tasks.push(last)) == (if tasks.len() == 0 {
            "Current tasks:"@
        } else {
            tasks_read(tasks)
        }) + "\n- #"@ + decimal_of(last.id.0 as nat) + " "@ + (match last.state {
            ClientPlayerTaskState::Queued => "queued"@,
            ClientPlayerTaskState::Active => "active"@,
            ClientPlayerTaskState::Paused => "paused"@,
        }),
{
    assert(tasks.push(last).drop_last() =~= tasks);
    assert(orders_read(tasks.push(last)) == orders_read(tasks) + "\n- #"@ + decimal_of(
        last.id.0 as nat,
    ) + " "@ + crate::card::state_reads(last.state));
}

/// A resident's card shows its name, its need as a number or as not applicable,
/// its intention and its orders; below them what it has perceived and where it
/// is bound for, where there is anything.
pub proof fn law_card_shows_need_intention_and_orders(resident: ClientResidentSnapshot)
    ensures
        status_reads(resident) == resident.display_name@ + "\nToilet need: "@ + (
        match resident.toilet_need {
            Some(value) => decimal_of(value as nat),
            None => "not applicable"@,
        }) + "\nIntention: "@ + (if resident.autonomous_intention is Some {
            "Use toilet"@
        } else {
            "None"@
        }) + "\n"@ + tasks_read(resident.player_tasks@) + (match resident.recent_perception {
            Some(ClientPerception::TookPargeterSeat) => "\nPerception: sat in the corner seat"@,
            Some(ClientPerception::WitnessedPargeterSeat) =>
                "\nPerception: tutted at the corner seat"@,
            None => Seq::empty(),
        }) + (if resident.attending_quiz {
            "\nTonight: the pub quiz"@
        } else {
            Seq::empty()
        }),
{
    reveal_strlit("");
    assert(""@ =~= Seq::<char>::empty());
}

/// The card shows whoever is selected and shown, and asks for a selection
/// otherwise. What the household has learned stands below either.
pub proof fn law_card_shows_the_selection(selected: Option<SimId>, snapshot: CottageSnapshot)
    ensures
        ({
            let shown = match selected {
                Some(id) => snapshot.shown(id),
                None => None,
            };
            let card = match shown {
                Some(resident) => status_reads(resident),
                None => "Select a newcomer to inspect them."@,
            };
            &&& !snapshot.household_knows_pargeter_custom ==> selected_reads(selected, snapshot)
                == card
            &&& snapshot.household_knows_pargeter_custom ==> selected_reads(selected, snapshot)
                == card
                + "\n\nThe household learned: the corner seat is Mr Pargeter's (he got the news about the pig there)."@
        }),
{
}

/// A resident comes from where the earlier snapshot shows it and goes to where
/// the later one does.
pub proof fn law_movement_joins_two_snapshots(
    previous: CottageSnapshot,
    current: CottageSnapshot,
    id: SimId,
)
    ensures
        match (previous.shown(id), current.shown(id)) {
            (Some(from), Some(to)) => spec_movement(previous, current, id) == Some(
                (from.position, to.position),
            ),
            _ => spec_movement(previous, current, id) is None,
        },
{
}

// ---------------------------------------------------------------------------
// The camera, the atlas and the driver.
// ---------------------------------------------------------------------------

/// The wheel goes one magnification in or out, between one and four.
pub proof fn law_wheel_zooms_by_one(current: u8)
    ensures
        1 <= current < 4 ==> zoomed(current, true) == current + 1,
        1 < current <= 4 ==> zoomed(current, false) == current - 1,
        current >= 4 ==> zoomed(current, true) == 4,
        current <= 1 ==> zoomed(current, false) == 1,
{
}

/// The follow button turns following on and off and leaves the view as it is;
/// a floor button shows its storey and ends following. Neither zooms.
pub proof fn law_buttons_follow_or_explore(camera: CottageCamera, floor: u8)
    ensures
        ({
            let follow = camera.spec_pressed(CameraControl::Follow);
            let explore = camera.spec_pressed(CameraControl::Floor(floor));
            &&& follow.follow_selected == !camera.follow_selected
            &&& follow.focused_floor == camera.focused_floor
            &&& follow.zoom == camera.zoom
            &&& !explore.follow_selected
            &&& explore.focused_floor == floor
            &&& explore.zoom == camera.zoom
        }),
{
}

/// The clothing frames fill the fifth of the atlas's twelve rows; what is left
/// over where the height is no multiple of twelve belongs to none.
pub proof fn law_clothing_is_the_fifth_of_twelve_rows(row: u32, height: u32, y: int)
    requires
        row * 12 <= height < row * 12 + 12,
    ensures
        is_clothing_row(height, y) <==> row * 4 <= y < row * 5,
{
    assert(height as int / 12 == row);
    assert(32int / 8int * row == row * 4) by (nonlinear_arith);
}

/// The pitch moves on by one linear step, modulo the word size.
pub proof fn law_pitch_moves_on_linearly(state: u64)
    ensures
        varied(state) == (state * 6364136223846793005 + 1) % 0x1_0000_0000_0000_0000,
{
    vstd::arithmetic::div_mod::lemma_add_mod_noop(
        state * 6364136223846793005,
        1,
        0x1_0000_0000_0000_0000,
    );
}

/// Ticks add up: none changes nothing, one is one tick, and some ticks and then
/// others are as many ticks as both together.
pub proof fn law_ticks_add_up(village: Village, a: nat, b: nat)
    ensures
        later(village, 0) == village,
        later(village, 1) == village.advance(),
        later(village, a + b) == later(later(village, a), b),
    decreases b,
{
    assert(later(village, 0) == village);
    if b > 0 {
        law_ticks_add_up(village, a, (b - 1) as nat);
        assert((a + b - 1) as nat == a + (b - 1) as nat);
    }
}

} // verus!
