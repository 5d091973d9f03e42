//! What the resident card and the clock show.

use vstd::prelude::*;

use crate::clock::TimeOfDay;
use crate::content::TilePosition;
use crate::identity::DefinitionId;
use crate::identity::SimId;
use crate::listing::first_where;
use crate::listing::lemma_first_where_at;
use crate::listing::lemma_first_where_none;
use crate::snapshot::ClientIntention;
use crate::snapshot::ClientPerception;
use crate::snapshot::ClientPlayerTaskSnapshot;
use crate::snapshot::ClientPlayerTaskState;
use crate::snapshot::ClientResidentSnapshot;
use crate::snapshot::CottageSnapshot;
use crate::text::decimal;
use crate::text::decimal_of;
use crate::text::two_digits;
use crate::text::two_digits_of;

verus! {

// ---------------------------------------------------------------------------
// Finding residents.
// ---------------------------------------------------------------------------

/// The shown residents with a given id.
pub open spec fn is_resident(id: SimId) -> spec_fn(ClientResidentSnapshot) -> bool {
    |resident: ClientResidentSnapshot| resident.id == id
}

impl CottageSnapshot {
    /// The resident shown under an id.
    pub open spec fn shown(self, id: SimId) -> Option<ClientResidentSnapshot> {
        first_where(self.residents@, is_resident(id))
    }

    /// The resident shown under an id.
    #[must_use]
    pub fn find_resident(&self, id: SimId) -> (r: Option<&ClientResidentSnapshot>)
        ensures
            match r {
                Some(resident) => self.shown(id) == Some(*resident),
                None => self.shown(id) is None,
            },
    {
        let mut i: usize = 0;
        while i < self.residents.len()
            invariant
                i <= self.residents@.len(),
                forall|j: int| 0 <= j < i ==> !is_resident(id)(#[trigger] self.residents@[j]),
            decreases self.residents@.len() - i,
        {
            if self.residents[i].id == id {
                proof {
                    lemma_first_where_at(self.residents@, is_resident(id), i as int);
                }
                return Some(&self.residents[i]);
            }
            i = i + 1;
        }
        proof {
            lemma_first_where_none(self.residents@, is_resident(id));
        }
        None
    }

    /// The name a resident goes by; one that is not shown is a newcomer.
    pub open spec fn spec_resident_name(self, id: SimId) -> Seq<char> {
        match self.shown(id) {
            Some(resident) => resident.display_name@,
            None => "A newcomer"@,
        }
    }

    /// The name a resident goes by.
    #[must_use]
    pub fn resident_name(&self, id: SimId) -> (r: &str)
        ensures
            r@ == self.spec_resident_name(id),
    {
        match self.find_resident(id) {
            Some(resident) => resident.display_name.as_str(),
            None => "A newcomer",
        }
    }

    /// The storey a resident is on.
    #[must_use]
    pub fn floor_of(&self, id: SimId) -> (r: Option<u8>)
        ensures
            r == match self.shown(id) {
                Some(resident) => Some(resident.position.floor),
                None => None,
            },
    {
        match self.find_resident(id) {
            Some(resident) => Some(resident.position.floor),
            None => None,
        }
    }
}

/// Where a resident comes from and goes to between two snapshots.
pub open spec fn spec_movement(previous: CottageSnapshot, current: CottageSnapshot, id: SimId) -> Option<
    (TilePosition, TilePosition),
> {
    match (previous.shown(id), current.shown(id)) {
        (Some(from), Some(to)) => Some((from.position, to.position)),
        _ => None,
    }
}

/// Where a resident comes from and goes to between two snapshots; nothing for
/// one that either of them does not show.
#[must_use]
pub fn movement(previous: &CottageSnapshot, current: &CottageSnapshot, id: SimId) -> (r: Option<
    (TilePosition, TilePosition),
>)
    ensures
        r == spec_movement(*previous, *current, id),
{
    match (previous.find_resident(id), current.find_resident(id)) {
        (Some(from), Some(to)) => Some((from.position, to.position)),
        _ => None,
    }
}

/// Whether a resident moved between two snapshots.
#[must_use]
pub fn is_walking(previous: &CottageSnapshot, current: &CottageSnapshot, id: SimId) -> (r: bool)
    ensures
        r == match spec_movement(*previous, *current, id) {
            Some((from, to)) => from != to,
            None => false,
        },
{
    match movement(previous, current, id) {
        Some((from, to)) => from != to,
        None => false,
    }
}

// ---------------------------------------------------------------------------
// Texts.
// ---------------------------------------------------------------------------

/// How a time of day reads.
pub open spec fn clock_reads(time: TimeOfDay) -> Seq<char> {
    two_digits_of(time.hour as nat) + ":"@ + two_digits_of(time.minute as nat)
}

/// A time of day as zero-padded hours and minutes.
#[must_use]
pub fn format_clock(time: TimeOfDay) -> (r: String)
    ensures
        r@ == clock_reads(time),
{
    let mut text: String = two_digits(time.hour);
    text.append(":");
    text.append(two_digits(time.minute).as_str());
    text
}

/// Maps an authored object type to a placeholder furniture atlas cell. Cell
/// 144 is the toilet; the King's Head bar uses a distinct cell until finished
/// art arrives, so it never masquerades as another fixture.
#[must_use]
pub fn furniture_atlas_index(object_type: &DefinitionId) -> (r: usize)
    ensures
        r == if object_type@ == "object_type.bar"@ {
            108usize
        } else {
            144usize
        },
{
    let bar = DefinitionId::new("object_type.bar");
    if object_type.same(&bar) {
        108
    } else {
        144
    }
}

/// How an order's state reads.
pub open spec fn state_reads(state: ClientPlayerTaskState) -> Seq<char> {
    match state {
        ClientPlayerTaskState::Queued => "queued"@,
        ClientPlayerTaskState::Active => "active"@,
        ClientPlayerTaskState::Paused => "paused"@,
    }
}

fn state_word(state: ClientPlayerTaskState) -> (r: &'static str)
    ensures
        r@ == state_reads(state),
{
    match state {
        ClientPlayerTaskState::Queued => "queued",
        ClientPlayerTaskState::Active => "active",
        ClientPlayerTaskState::Paused => "paused",
    }
}

/// How a list of orders reads, one to a line.
pub open spec fn orders_read(tasks: Seq<ClientPlayerTaskSnapshot>) -> Seq<char>
    decreases tasks.len(),
{
    if tasks.len() == 0 {
        "Current tasks:"@
    } else {
        orders_read(tasks.drop_last()) + "\n- #"@ + decimal_of(tasks.last().id.0 as nat) + " "@
            + state_reads(tasks.last().state)
    }
}

/// How a resident's orders read.
pub open spec fn tasks_read(tasks: Seq<ClientPlayerTaskSnapshot>) -> Seq<char> {
    if tasks.len() == 0 {
        "Current tasks:\n- None"@
    } else {
        orders_read(tasks)
    }
}

fn tasks_text(tasks: &Vec<ClientPlayerTaskSnapshot>) -> (r: String)
    ensures
        r@ == tasks_read(tasks@),
{
    if tasks.len() == 0 {
        return "Current tasks:\n- None".to_owned();
    }
    let mut lines: String = "Current tasks:".to_owned();
    let mut i: usize = 0;
    assert(tasks@.take(0) =~= Seq::<ClientPlayerTaskSnapshot>::empty());
    while i < tasks.len()
        invariant
            i <= tasks@.len(),
            lines@ == orders_read(tasks@.take(i as int)),
        decreases tasks@.len() - i,
    {
        assert(tasks@.take(i + 1).drop_last() =~= tasks@.take(i as int));
        assert(tasks@.take(i + 1).last() == tasks@[i as int]);
        lines.append("\n- #");
        lines.append(decimal(tasks[i].id.0).as_str());
        lines.append(" ");
        lines.append(state_word(tasks[i].state));
        i = i + 1;
    }
    assert(tasks@.take(i as int) =~= tasks@);
    lines
}

/// How a need reads.
pub open spec fn need_reads(need: Option<u8>) -> Seq<char> {
    match need {
        Some(value) => decimal_of(value as nat),
        None => "not applicable"@,
    }
}

/// How an intention reads.
pub open spec fn intention_reads(intention: Option<ClientIntention>) -> Seq<char> {
    match intention {
        Some(ClientIntention::Toilet) => "Use toilet"@,
        None => "None"@,
    }
}

/// How a perception reads.
pub open spec fn perception_reads(perception: Option<ClientPerception>) -> Seq<char> {
    match perception {
        Some(ClientPerception::TookPargeterSeat) => "\nPerception: sat in the corner seat"@,
        Some(ClientPerception::WitnessedPargeterSeat) =>
            "\nPerception: tutted at the corner seat"@,
        None => ""@,
    }
}

/// How the evening's commitment reads.
pub open spec fn commitment_reads(attending_quiz: bool) -> Seq<char> {
    if attending_quiz {
        "\nTonight: the pub quiz"@
    } else {
        ""@
    }
}

/// How a resident's card reads.
pub open spec fn status_reads(resident: ClientResidentSnapshot) -> Seq<char> {
    resident.display_name@ + "\nToilet need: "@ + need_reads(resident.toilet_need)
        + "\nIntention: "@ + intention_reads(resident.autonomous_intention) + "\n"@ + tasks_read(
        resident.player_tasks@,
    ) + perception_reads(resident.recent_perception) + commitment_reads(resident.attending_quiz)
}

/// A resident's card, from projected authoritative status alone.
#[must_use]
pub fn resident_status_text(resident: &ClientResidentSnapshot) -> (r: String)
    ensures
        r@ == status_reads(*resident),
{
    let mut text: String = resident.display_name.clone();
    text.append("\nToilet need: ");
    match resident.toilet_need {
        Some(value) => {
            text.append(decimal(value as u64).as_str());
        },
        None => {
            text.append("not applicable");
        },
    }
    text.append("\nIntention: ");
    match resident.autonomous_intention {
        Some(ClientIntention::Toilet) => {
            text.append("Use toilet");
        },
        None => {
            text.append("None");
        },
    }
    text.append("\n");
    text.append(tasks_text(&resident.player_tasks).as_str());
    match resident.recent_perception {
        Some(ClientPerception::TookPargeterSeat) => {
            text.append("\nPerception: sat in the corner seat");
        },
        Some(ClientPerception::WitnessedPargeterSeat) => {
            text.append("\nPerception: tutted at the corner seat");
        },
        None => {
            text.append("");
        },
    }
    if resident.attending_quiz {
        text.append("\nTonight: the pub quiz");
    } else {
        text.append("");
    }
    text
}

/// How the card reads for a selection.
pub open spec fn selected_reads(selected: Option<SimId>, snapshot: CottageSnapshot) -> Seq<char> {
    let base = match selected {
        Some(id) => match snapshot.shown(id) {
            Some(resident) => status_reads(resident),
            None => "Select a newcomer to inspect them."@,
        },
        None => "Select a newcomer to inspect them."@,
    };
    if snapshot.household_knows_pargeter_custom {
        base
            + "\n\nThe household learned: the corner seat is Mr Pargeter's (he got the news about the pig there)."@
    } else {
        base
    }
}

/// The card for a selection.
#[must_use]
pub fn selected_status_text(selected: Option<SimId>, snapshot: &CottageSnapshot) -> (r: String)
    ensures
        r@ == selected_reads(selected, *snapshot),
{
    let mut text: String = match selected {
        Some(id) => match snapshot.find_resident(id) {
            Some(resident) => resident_status_text(resident),
            None => "Select a newcomer to inspect them.".to_owned(),
        },
        None => "Select a newcomer to inspect them.".to_owned(),
    };
    if snapshot.household_knows_pargeter_custom {
        text.append(
            "\n\nThe household learned: the corner seat is Mr Pargeter's (he got the news about the pig there).",
        );
    }
    text
}

} // verus!
