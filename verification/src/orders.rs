//! The client's order desk: submitting orders, showing their receipts and
//! offering cancellations.

use vstd::prelude::*;

use crate::content::TilePosition;
use crate::events::PlayerCommand;
use crate::events::PlayerCommandRejection;
use crate::events::WorldEvent;
use crate::events::WorldEventKind;
use crate::identity::DefinitionId;
use crate::identity::PlayerTaskId;
use crate::identity::SimId;
use crate::listing::first_where;
use crate::listing::lemma_first_where_at;
use crate::listing::lemma_first_where_none;
use crate::ord_map::OrdMap;
use crate::snapshot::ClientPlayerTaskSnapshot;
use crate::snapshot::ClientPlayerTaskState;
use crate::snapshot::CottageSnapshot;
use crate::text::decimal;
use crate::text::decimal_of;
use crate::text::said;

verus! {

/// The number of listed player tasks the card exposes an individual cancel
/// control for. A resident's queue is not expected to grow past this in the
/// Cottage fixture; deeper queues simply show their first few cancel buttons.
pub const CANCEL_SLOTS: usize = 4;

/// The claim priority of orders given by the client.
pub const ORDER_PRIORITY: i32 = 100;

/// The authoritative task state at the instant the player asked to cancel.
/// It is presentation context only; the cancel command still goes through the
/// simulation and is validated there on its next tick.
#[derive(Clone, Copy, Debug, Eq, PartialEq, Structural)]
pub enum CancellationOutcome {
    Queued,
    Active,
    Paused,
}

impl View for CancellationOutcome {
    type V = CancellationOutcome;

    open spec fn view(&self) -> CancellationOutcome {
        *self
    }
}

/// The task (and its snapshot state at bind time) a cancel slot currently
/// targets.
#[derive(Clone, Copy, Debug, Eq, PartialEq, Structural)]
pub struct CancelBinding {
    pub task: PlayerTaskId,
    pub outcome: CancellationOutcome,
}

/// What a submitted command asked for.
#[derive(Clone, Copy, Debug, Eq, PartialEq, Structural)]
pub enum PendingAction {
    Order,
    Cancellation(CancellationOutcome),
}

/// A submitted command that has no receipt yet.
#[derive(Clone, Copy, Debug, Eq, PartialEq, Structural)]
pub struct PendingOrder {
    pub task: PlayerTaskId,
    pub action: PendingAction,
    /// The immutable ledger length at submission. A cancellation shares its
    /// task ID with its already accepted order, so only later events can be
    /// its own deferred receipt.
    pub receipt_start: usize,
}

/// Allocates task IDs in the client only. An allocated ID is retained by the
/// pending order until the simulation publishes its immutable receipt.
pub struct OrderState {
    pub next_task_id: u64,
    pub pending: Option<PendingOrder>,
    pub receipt: Option<String>,
    /// Cancellation outcomes must be remembered after the deferred command
    /// receipt has cleared `pending`: `TaskCancelled` is the semantic event
    /// which tells the player what was actually released.
    pub cancellation_outcomes: OrdMap<PlayerTaskId, CancellationOutcome>,
}

/// An order desk as the contracts speak of it.
#[verifier::ext_equal]
pub ghost struct Desk {
    pub next_task_id: u64,
    pub pending: Option<PendingOrder>,
    pub receipt: Option<Seq<char>>,
    pub cancellation_outcomes: Map<PlayerTaskId, CancellationOutcome>,
}

impl View for OrderState {
    type V = Desk;

    open spec fn view(&self) -> Desk {
        Desk {
            next_task_id: self.next_task_id,
            pending: self.pending,
            receipt: said(self.receipt),
            cancellation_outcomes: self.cancellation_outcomes@,
        }
    }
}

impl Default for OrderState {
    fn default() -> (r: Self)
        ensures
            r.cancellation_outcomes.wf(),
            r@ == (Desk {
                next_task_id: 0,
                pending: None,
                receipt: None,
                cancellation_outcomes: Map::empty(),
            }),
    {
        OrderState {
            next_task_id: 0,
            pending: None,
            receipt: None,
            cancellation_outcomes: OrdMap::new(),
        }
    }
}

// ---------------------------------------------------------------------------
// Receipts.
// ---------------------------------------------------------------------------

/// The events that answer a command about an order.
pub open spec fn is_receipt(task: PlayerTaskId) -> spec_fn(WorldEvent) -> bool {
    |event: WorldEvent|
        match event.kind {
            WorldEventKind::PlayerCommandAccepted { task: about } => about == task,
            WorldEventKind::PlayerCommandRejected { task: about, .. } => about == task,
            _ => false,
        }
}

/// How a pending action is called.
pub open spec fn action_reads(action: PendingAction) -> Seq<char> {
    match action {
        PendingAction::Order => "Order"@,
        PendingAction::Cancellation(_) => "Cancellation"@,
    }
}

/// How a refusal reads.
pub open spec fn rejection_reads(reason: PlayerCommandRejection) -> Seq<char> {
    match reason {
        PlayerCommandRejection::DuplicateTask => "duplicate task"@,
        PlayerCommandRejection::InvalidMoveTarget => "unreachable tile"@,
        PlayerCommandRejection::InvalidUseTarget => "invalid fixture"@,
        PlayerCommandRejection::ResidentBusy => "resident busy"@,
        PlayerCommandRejection::UnknownResident => "unknown resident"@,
        PlayerCommandRejection::UnknownTask => "unknown task"@,
        PlayerCommandRejection::TaskNotCancellable => "task cannot be cancelled"@,
    }
}

/// How the answer to a pending command reads.
pub open spec fn receipt_reads(pending: PendingOrder, answer: WorldEvent) -> Seq<char> {
    let subject = action_reads(pending.action) + " #"@ + decimal_of(pending.task.0 as nat);
    match answer.kind {
        WorldEventKind::PlayerCommandRejected { reason, .. } => subject + " rejected: "@
            + rejection_reads(reason) + "."@,
        _ => subject + " accepted."@,
    }
}

/// The events published since a command was submitted.
pub open spec fn since(events: Seq<WorldEvent>, start: int) -> Seq<WorldEvent> {
    if start <= events.len() {
        events.skip(start)
    } else {
        Seq::empty()
    }
}

/// The receipt of a pending command, once it is published.
pub open spec fn published_receipt(pending: PendingOrder, events: Seq<WorldEvent>) -> Option<
    Seq<char>,
> {
    match first_where(since(events, pending.receipt_start as int), is_receipt(pending.task)) {
        Some(answer) => Some(receipt_reads(pending, answer)),
        None => None,
    }
}

/// How a pending action is called.
pub fn pending_action_label(action: PendingAction) -> (r: &'static str)
    ensures
        r@ == action_reads(action),
{
    match action {
        PendingAction::Order => "Order",
        PendingAction::Cancellation(_) => "Cancellation",
    }
}

/// A refusal in words a player can read.
pub fn rejection_label(reason: PlayerCommandRejection) -> (r: &'static str)
    ensures
        r@ == rejection_reads(reason),
{
    match reason {
        PlayerCommandRejection::DuplicateTask => "duplicate task",
        PlayerCommandRejection::InvalidMoveTarget => "unreachable tile",
        PlayerCommandRejection::InvalidUseTarget => "invalid fixture",
        PlayerCommandRejection::ResidentBusy => "resident busy",
        PlayerCommandRejection::UnknownResident => "unknown resident",
        PlayerCommandRejection::UnknownTask => "unknown task",
        PlayerCommandRejection::TaskNotCancellable => "task cannot be cancelled",
    }
}

/// The answer an event gives about an order: the reason of a refusal, or
/// nothing for an acceptance.
fn answer_about(event: &WorldEvent, task: PlayerTaskId) -> (r: Option<
    Option<PlayerCommandRejection>,
>)
    ensures
        r is Some == is_receipt(task)(*event),
        r is Some ==> match event.kind {
            WorldEventKind::PlayerCommandRejected { reason, .. } => r->0 == Some(reason),
            _ => r->0 is None,
        },
{
    match &event.kind {
        WorldEventKind::PlayerCommandAccepted { task: about } => {
            if *about == task {
                Some(None)
            } else {
                None
            }
        },
        WorldEventKind::PlayerCommandRejected { task: about, reason } => {
            if *about == task {
                Some(Some(*reason))
            } else {
                None
            }
        },
        _ => None,
    }
}

/// The receipt of a pending command: the first answer about its task that was
/// published after it was submitted.
pub fn deferred_receipt(pending: PendingOrder, events: &[WorldEvent]) -> (r: Option<String>)
    ensures
        said(r) == published_receipt(pending, events@),
{
    let mut i: usize = pending.receipt_start;
    let ghost later = since(events@, pending.receipt_start as int);
    let ghost p = is_receipt(pending.task);
    while i < events.len()
        invariant
            pending.receipt_start <= i,
            i <= events@.len() || i == pending.receipt_start,
            later == since(events@, pending.receipt_start as int),
            p == is_receipt(pending.task),
            forall|j: int|
                0 <= j < i - pending.receipt_start && j < later.len() ==> !p(#[trigger] later[j]),
        decreases events@.len() - i,
    {
        let ghost at = i - pending.receipt_start;
        assert(later[at] == events@[i as int]);
        if let Some(answer) = answer_about(&events[i], pending.task) {
            proof {
                lemma_first_where_at(later, p, at);
            }
            let mut text: String = pending_action_label(pending.action).to_owned();
            text.append(" #");
            text.append(decimal(pending.task.0).as_str());
            match answer {
                Some(reason) => {
                    text.append(" rejected: ");
                    text.append(rejection_label(reason));
                    text.append(".");
                },
                None => {
                    text.append(" accepted.");
                },
            }
            return Some(text);
        }
        i = i + 1;
    }
    proof {
        lemma_first_where_none(later, p);
    }
    None
}

impl Desk {
    /// A published receipt ends what is pending.
    pub open spec fn receive(self, events: Seq<WorldEvent>) -> Desk {
        match self.pending {
            None => self,
            Some(pending) => match published_receipt(pending, events) {
                None => self,
                Some(receipt) => Desk { pending: None, receipt: Some(receipt), ..self },
            },
        }
    }
}

/// Consumes an immutable receipt exactly once from the simulation's published
/// ledger. The ledger records the receipt in the same advance that validates
/// the command. Receipt handling never changes simulation state.
pub fn consume_order_receipt(order: &mut OrderState, events: &[WorldEvent])
    ensures
        final(order)@ == old(order)@.receive(events@),
        final(order).cancellation_outcomes == old(order).cancellation_outcomes,
{
    if let Some(pending) = order.pending {
        if let Some(receipt) = deferred_receipt(pending, events) {
            order.pending = None;
            order.receipt = Some(receipt);
        }
    }
}

// ---------------------------------------------------------------------------
// Feedback.
// ---------------------------------------------------------------------------

impl Desk {
    /// What the order line reads: the command in flight, or the last receipt.
    pub open spec fn feedback(self) -> Seq<char> {
        match self.pending {
            Some(pending) => match pending.action {
                PendingAction::Order => "Order #"@ + decimal_of(pending.task.0 as nat)
                    + " pending\u{2026}"@,
                PendingAction::Cancellation(CancellationOutcome::Queued) =>
                    "Removing queued order #"@ + decimal_of(pending.task.0 as nat) + "..."@,
                PendingAction::Cancellation(CancellationOutcome::Active) =>
                    "Cancelling active order #"@ + decimal_of(pending.task.0 as nat) + "..."@,
                PendingAction::Cancellation(CancellationOutcome::Paused) =>
                    "Removing paused order #"@ + decimal_of(pending.task.0 as nat) + "..."@,
            },
            None => match self.receipt {
                Some(receipt) => receipt,
                None => Seq::empty(),
            },
        }
    }
}

/// What the order line shows: the command in flight, worded so that a
/// cancellation is not misleadingly presented as a second order, or else the
/// last receipt.
#[must_use]
pub fn order_feedback_text(order: &OrderState) -> (r: String)
    ensures
        r@ == order@.feedback(),
{
    match order.pending {
        Some(pending) => {
            let (lead, trail): (&str, &str) = match pending.action {
                PendingAction::Order => ("Order #", " pending\u{2026}"),
                PendingAction::Cancellation(CancellationOutcome::Queued) => (
                    "Removing queued order #",
                    "...",
                ),
                PendingAction::Cancellation(CancellationOutcome::Active) => (
                    "Cancelling active order #",
                    "...",
                ),
                PendingAction::Cancellation(CancellationOutcome::Paused) => (
                    "Removing paused order #",
                    "...",
                ),
            };
            let mut text: String = lead.to_owned();
            text.append(decimal(pending.task.0).as_str());
            text.append(trail);
            text
        },
        None => match &order.receipt {
            Some(receipt) => receipt.clone(),
            None => String::new(),
        },
    }
}

// ---------------------------------------------------------------------------
// Submitting.
// ---------------------------------------------------------------------------

impl Desk {
    /// A new order takes the next id and awaits its receipt.
    pub open spec fn submitted(self, ledger_len: usize) -> Desk {
        Desk {
            next_task_id: (self.next_task_id + 1) as u64,
            pending: Some(
                PendingOrder {
                    task: PlayerTaskId(self.next_task_id),
                    action: PendingAction::Order,
                    receipt_start: ledger_len,
                },
            ),
            receipt: None,
            ..self
        }
    }
}

/// Orders the selected newcomer to use the toilet. The Cottage fixture
/// contains one authored toilet, and this control is agent-first: it never
/// turns the object into a client-side click target. Nothing is submitted
/// without a selection, or while another command is pending; the order line
/// then says why.
pub fn order_toilet(
    order: &mut OrderState,
    selected: Option<SimId>,
    ledger_len: usize,
) -> (r: Option<PlayerCommand>)
    requires
        selected is Some && old(order).pending is None ==> old(order).next_task_id < u64::MAX,
    ensures
        final(order).cancellation_outcomes == old(order).cancellation_outcomes,
        match selected {
            None => {
                &&& r is None
                &&& final(order)@ == (Desk {
                    receipt: Some("Select a newcomer before ordering."@),
                    ..old(order)@
                })
            },
            Some(resident) => if old(order).pending is Some {
                &&& r is None
                &&& final(order)@ == (Desk {
                    receipt: Some("An order is already pending; wait for its receipt."@),
                    ..old(order)@
                })
            } else {
                &&& final(order)@ == old(order)@.submitted(ledger_len)
                &&& r matches Some(
                    PlayerCommand::QueueUseToilet {
                        task,
                        resident: whose,
                        object,
                        affordance,
                        priority,
                    },
                )
                &&& task == PlayerTaskId(old(order).next_task_id)
                &&& whose == resident
                &&& object@ == "object.cottage_toilet"@
                &&& affordance@ == "affordance.use_toilet"@
                &&& priority == ORDER_PRIORITY
            },
        },
{
    let resident: SimId = match selected {
        Some(resident) => resident,
        None => {
            order.receipt = Some("Select a newcomer before ordering.".to_owned());
            return None;
        },
    };
    if order.pending.is_some() {
        order.receipt = Some("An order is already pending; wait for its receipt.".to_owned());
        return None;
    }
    let task: PlayerTaskId = PlayerTaskId(order.next_task_id);
    order.next_task_id = order.next_task_id + 1;
    order.pending = Some(
        PendingOrder { task, action: PendingAction::Order, receipt_start: ledger_len },
    );
    order.receipt = None;
    Some(
        PlayerCommand::QueueUseToilet {
            task,
            resident,
            object: DefinitionId::new("object.cottage_toilet"),
            affordance: DefinitionId::new("affordance.use_toilet"),
            priority: ORDER_PRIORITY,
        },
    )
}

/// Orders the selected newcomer to a tile. Nothing happens without a
/// selection, or while another command is pending.
pub fn order_go_to(
    order: &mut OrderState,
    selected: Option<SimId>,
    destination: TilePosition,
    ledger_len: usize,
) -> (r: Option<PlayerCommand>)
    requires
        selected is Some && old(order).pending is None ==> old(order).next_task_id < u64::MAX,
    ensures
        final(order).cancellation_outcomes == old(order).cancellation_outcomes,
        if selected is None || old(order).pending is Some {
            r is None && *final(order) == *old(order)
        } else {
            &&& final(order)@ == old(order)@.submitted(ledger_len)
            &&& r == Some(
                PlayerCommand::QueueGoTo {
                    task: PlayerTaskId(old(order).next_task_id),
                    resident: selected->0,
                    destination,
                    priority: ORDER_PRIORITY,
                },
            )
        },
{
    if order.pending.is_some() {
        return None;
    }
    let resident: SimId = match selected {
        Some(resident) => resident,
        None => {
            return None;
        },
    };
    let task: PlayerTaskId = PlayerTaskId(order.next_task_id);
    order.next_task_id = order.next_task_id + 1;
    order.pending = Some(
        PendingOrder { task, action: PendingAction::Order, receipt_start: ledger_len },
    );
    order.receipt = None;
    Some(PlayerCommand::QueueGoTo { task, resident, destination, priority: ORDER_PRIORITY })
}

impl Desk {
    /// A cancellation awaits its receipt, and is remembered with the state the
    /// task was in.
    pub open spec fn cancelling(self, binding: CancelBinding, ledger_len: usize) -> Desk {
        Desk {
            pending: Some(
                PendingOrder {
                    task: binding.task,
                    action: PendingAction::Cancellation(binding.outcome),
                    receipt_start: ledger_len,
                },
            ),
            receipt: None,
            cancellation_outcomes: self.cancellation_outcomes.insert(binding.task, binding.outcome),
            ..self
        }
    }
}

/// Cancels the task that a pressed slot is bound to. Nothing happens while
/// another command is pending, or where no pressed slot is bound.
pub fn order_cancellation(
    order: &mut OrderState,
    binding: Option<CancelBinding>,
    ledger_len: usize,
) -> (r: Option<PlayerCommand>)
    requires
        old(order).cancellation_outcomes.wf(),
    ensures
        final(order).cancellation_outcomes.wf(),
        if binding is None || old(order).pending is Some {
            r is None && *final(order) == *old(order)
        } else {
            &&& final(order)@ == old(order)@.cancelling(binding->0, ledger_len)
            &&& r == Some(PlayerCommand::CancelPlayerTask { task: binding->0.task })
        },
{
    if order.pending.is_some() {
        return None;
    }
    let binding: CancelBinding = match binding {
        Some(binding) => binding,
        None => {
            return None;
        },
    };
    order.pending = Some(
        PendingOrder {
            task: binding.task,
            action: PendingAction::Cancellation(binding.outcome),
            receipt_start: ledger_len,
        },
    );
    order.cancellation_outcomes.insert(binding.task, binding.outcome);
    order.receipt = None;
    Some(PlayerCommand::CancelPlayerTask { task: binding.task })
}

// ---------------------------------------------------------------------------
// Cancel controls.
// ---------------------------------------------------------------------------

/// How a shown order would be cancelled.
pub open spec fn binding_of(task: ClientPlayerTaskSnapshot) -> CancelBinding {
    CancelBinding {
        task: task.id,
        outcome: match task.state {
            ClientPlayerTaskState::Queued => CancellationOutcome::Queued,
            ClientPlayerTaskState::Active => CancellationOutcome::Active,
            ClientPlayerTaskState::Paused => CancellationOutcome::Paused,
        },
    }
}

/// What can be cancelled for a selection, head first.
pub open spec fn cancellable(selected: Option<SimId>, snapshot: CottageSnapshot) -> Seq<
    CancelBinding,
> {
    match selected {
        Some(id) => match snapshot.shown(id) {
            Some(resident) => resident.player_tasks@.map_values(
                |task: ClientPlayerTaskSnapshot| binding_of(task),
            ),
            None => Seq::empty(),
        },
        None => Seq::empty(),
    }
}

/// Projects the selected resident's cancellable player tasks, head first, each
/// paired with the snapshot state that decides its cancellation wording.
#[must_use]
pub fn cancellable_tasks(selected: Option<SimId>, snapshot: &CottageSnapshot) -> (r: Vec<
    CancelBinding,
>)
    ensures
        r@ == cancellable(selected, *snapshot),
{
    let mut bindings: Vec<CancelBinding> = Vec::new();
    if let Some(id) = selected {
        if let Some(resident) = snapshot.find_resident(id) {
            let mut i: usize = 0;
            while i < resident.player_tasks.len()
                invariant
                    i <= resident.player_tasks@.len(),
                    bindings@.len() == i,
                    forall|j: int|
                        0 <= j < i ==> #[trigger] bindings@[j] == binding_of(
                            resident.player_tasks@[j],
                        ),
                decreases resident.player_tasks@.len() - i,
            {
                let task = &resident.player_tasks[i];
                let outcome = match task.state {
                    ClientPlayerTaskState::Queued => CancellationOutcome::Queued,
                    ClientPlayerTaskState::Active => CancellationOutcome::Active,
                    ClientPlayerTaskState::Paused => CancellationOutcome::Paused,
                };
                bindings.push(CancelBinding { task: task.id, outcome });
                i = i + 1;
            }
        }
    }
    assert(bindings@ =~= cancellable(selected, *snapshot));
    bindings
}

/// What the cancel slot at `index` is bound to. A cancel is only offered while
/// no command is already in flight.
pub open spec fn slot_binding(
    pending: Option<PendingOrder>,
    selected: Option<SimId>,
    snapshot: CottageSnapshot,
    index: int,
) -> Option<CancelBinding> {
    if pending is None && index < cancellable(selected, snapshot).len() {
        Some(cancellable(selected, snapshot)[index])
    } else {
        None
    }
}

/// What each cancel slot is bound to. A cancel is only offered while no
/// command is already in flight.
#[must_use]
pub fn cancel_bindings(
    pending: Option<PendingOrder>,
    selected: Option<SimId>,
    snapshot: &CottageSnapshot,
) -> (r: Vec<Option<CancelBinding>>)
    ensures
        r@.len() == CANCEL_SLOTS,
        forall|i: int|
            0 <= i < CANCEL_SLOTS ==> #[trigger] r@[i] == slot_binding(
                pending,
                selected,
                *snapshot,
                i,
            ),
{
    let tasks: Vec<CancelBinding> = cancellable_tasks(selected, snapshot);
    let mut bindings: Vec<Option<CancelBinding>> = Vec::new();
    let mut i: usize = 0;
    while i < CANCEL_SLOTS
        invariant
            i <= CANCEL_SLOTS,
            tasks@ == cancellable(selected, *snapshot),
            bindings@.len() == i,
            forall|j: int|
                0 <= j < i ==> #[trigger] bindings@[j] == slot_binding(
                    pending,
                    selected,
                    *snapshot,
                    j,
                ),
        decreases CANCEL_SLOTS - i,
    {
        if pending.is_none() && i < tasks.len() {
            bindings.push(Some(tasks[i]));
        } else {
            bindings.push(None);
        }
        i = i + 1;
    }
    bindings
}

/// How the state of an order to cancel reads.
pub open spec fn outcome_reads(outcome: CancellationOutcome) -> Seq<char> {
    match outcome {
        CancellationOutcome::Queued => "queued"@,
        CancellationOutcome::Active => "active"@,
        CancellationOutcome::Paused => "paused"@,
    }
}

/// The state of an order to cancel, in a word.
pub fn cancel_state_word(outcome: CancellationOutcome) -> (r: &'static str)
    ensures
        r@ == outcome_reads(outcome),
{
    match outcome {
        CancellationOutcome::Queued => "queued",
        CancellationOutcome::Active => "active",
        CancellationOutcome::Paused => "paused",
    }
}

/// What a cancel slot shows.
#[must_use]
pub fn cancel_slot_label(binding: Option<CancelBinding>) -> (r: String)
    ensures
        r@ == match binding {
            Some(binding) => "Cancel #"@ + decimal_of(binding.task.0 as nat) + " "@
                + outcome_reads(binding.outcome),
            None => "Cancel task"@,
        },
{
    match binding {
        Some(binding) => {
            let mut text: String = "Cancel #".to_owned();
            text.append(decimal(binding.task.0).as_str());
            text.append(" ");
            text.append(cancel_state_word(binding.outcome));
            text
        },
        None => "Cancel task".to_owned(),
    }
}

/// The bindings of pressed slots that are bound.
pub open spec fn is_bound(bindings: Seq<Option<CancelBinding>>) -> spec_fn(usize) -> bool {
    |index: usize| index < bindings.len() && bindings[index as int] is Some
}

/// The binding that a press acts on: that of the first pressed slot that is
/// bound.
#[must_use]
pub fn pressed_binding(bindings: &Vec<Option<CancelBinding>>, pressed: &Vec<usize>) -> (r: Option<
    CancelBinding,
>)
    ensures
        r == match first_where(pressed@, is_bound(bindings@)) {
            Some(index) => bindings@[index as int],
            None => None,
        },
{
    let mut i: usize = 0;
    while i < pressed.len()
        invariant
            i <= pressed@.len(),
            forall|j: int| 0 <= j < i ==> !is_bound(bindings@)(#[trigger] pressed@[j]),
        decreases pressed@.len() - i,
    {
        let index: usize = pressed[i];
        if index < bindings.len() {
            if let Some(binding) = bindings[index] {
                proof {
                    lemma_first_where_at(pressed@, is_bound(bindings@), i as int);
                }
                return Some(binding);
            }
        }
        i = i + 1;
    }
    proof {
        lemma_first_where_none(pressed@, is_bound(bindings@));
    }
    None
}

// ---------------------------------------------------------------------------
// Laws.
// ---------------------------------------------------------------------------

/// A receipt is consumed exactly once: consuming again changes nothing.
pub proof fn law_receipt_is_consumed_once(desk: Desk, events: Seq<WorldEvent>)
    ensures
        desk.receive(events).receive(events) == desk.receive(events),
{
}

/// A command is not answered by what was published before it was submitted:
/// only later events count, so a cancellation is not answered by the receipt
/// of the order it cancels.
pub proof fn law_earlier_events_are_no_receipt(
    pending: PendingOrder,
    earlier: Seq<WorldEvent>,
    other: Seq<WorldEvent>,
    later: Seq<WorldEvent>,
)
    requires
        earlier.len() == pending.receipt_start,
        other.len() == pending.receipt_start,
    ensures
        published_receipt(pending, earlier + later) == published_receipt(pending, other + later),
{
    let start = pending.receipt_start as int;
    assert((earlier + later).skip(start) =~= later);
    assert((other + later).skip(start) =~= later);
}

/// The client never gives two orders the same id.
pub proof fn law_orders_get_fresh_ids(desk: Desk, ledger_len: usize)
    requires
        desk.next_task_id < u64::MAX,
    ensures
        desk.submitted(ledger_len).next_task_id > desk.next_task_id,
        desk.submitted(ledger_len).pending->0.task.0 == desk.next_task_id,
        desk.submitted(ledger_len).next_task_id > desk.submitted(ledger_len).pending->0.task.0,
{
}

} // verus!
