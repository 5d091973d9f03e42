//! Deterministic arbitration: bands, claims and the order they are served in.

use std::cmp::Ordering;

use vstd::prelude::*;

use crate::content::TilePosition;
use crate::identity::DefinitionId;
use crate::identity::PlayerTaskId;
use crate::identity::SimId;

verus! {

/// The arbitration band an action competes in. Bands change effective
/// priority only; the deterministic tie-break (priority, request age, SimId)
/// is unchanged. `Mandatory` is reserved for accident consequences and is not
/// yet produced by any system.
#[derive(Clone, Copy, Debug, Eq, PartialEq, Structural)]
pub enum ActionBand {
    Autonomous,
    Player,
    Urgent,
    Mandatory,
}

impl ActionBand {
    /// The band's contribution to effective priority.
    pub open spec fn spec_base(self) -> i64 {
        match self {
            ActionBand::Autonomous => 0,
            ActionBand::Player => 1_000,
            ActionBand::Urgent => 2_000,
            ActionBand::Mandatory => 3_000,
        }
    }

    /// The band's contribution to effective priority. Higher bands dominate
    /// any fine priority difference within a lower band.
    pub fn base(self) -> (r: i64)
        ensures
            r == self.spec_base(),
    {
        match self {
            ActionBand::Autonomous => 0,
            ActionBand::Player => 1_000,
            ActionBand::Urgent => 2_000,
            ActionBand::Mandatory => 3_000,
        }
    }
}

/// One pending request to use an object affordance.
#[derive(Clone, Debug)]
pub struct UseRequest {
    pub resident: SimId,
    pub object: DefinitionId,
    pub affordance: DefinitionId,
    pub priority: i64,
    pub band: ActionBand,
    pub request_age: u64,
    pub player_task: Option<PlayerTaskId>,
}

impl UseRequest {
    /// A copy of the request.
    pub fn copied(&self) -> (r: UseRequest)
        ensures
            r == *self,
    {
        UseRequest {
            resident: self.resident,
            object: self.object.clone(),
            affordance: self.affordance.clone(),
            priority: self.priority,
            band: self.band,
            request_age: self.request_age,
            player_task: self.player_task,
        }
    }
}

/// One live claim to enter a tile this tick. Movement makes the same
/// deterministic arbitration promise as smart-object slots.
#[derive(Clone, Copy, Debug)]
pub struct MovementClaim {
    pub resident: SimId,
    pub target: TilePosition,
    pub priority: i64,
    pub band: ActionBand,
    pub request_age: u64,
}

/// What claims are ranked by: effective priority, request age and claimant.
pub ghost struct Standing {
    pub priority: int,
    pub request_age: int,
    pub resident: SimId,
}

impl Standing {
    /// Whether this standing is served before another: higher effective
    /// priority first, then the older request, then the lower `SimId`.
    pub open spec fn outranks(self, other: Standing) -> bool {
        self.priority > other.priority || (self.priority == other.priority && (self.request_age
            < other.request_age || (self.request_age == other.request_age && self.resident.0
            < other.resident.0)))
    }
}

impl UseRequest {
    /// How a use request ranks.
    pub open spec fn standing(self) -> Standing {
        Standing {
            priority: self.band.spec_base() + self.priority,
            request_age: self.request_age as int,
            resident: self.resident,
        }
    }
}

impl MovementClaim {
    /// How a movement claim ranks.
    pub open spec fn standing(self) -> Standing {
        Standing {
            priority: self.band.spec_base() + self.priority,
            request_age: self.request_age as int,
            resident: self.resident,
        }
    }
}

/// An effective priority, wide enough for every band and fine priority.
fn effective_priority(band: ActionBand, priority: i64) -> (r: i128)
    ensures
        r == band.spec_base() + priority,
{
    let base: i128 = band.base() as i128;
    base + priority as i128
}

/// The standing made of executable values.
spec fn standing_of(priority: i128, request_age: u64, resident: SimId) -> Standing {
    Standing { priority: priority as int, request_age: request_age as int, resident }
}

/// Orders two standings, the one served first being less.
fn compare_standings(
    left_priority: i128,
    left_age: u64,
    left_resident: SimId,
    right_priority: i128,
    right_age: u64,
    right_resident: SimId,
) -> (r: Ordering)
    ensures
        ({
            let left = standing_of(left_priority, left_age, left_resident);
            let right = standing_of(right_priority, right_age, right_resident);
            &&& r == Ordering::Less <==> left.outranks(right)
            &&& r == Ordering::Greater <==> right.outranks(left)
        }),
{
    if left_priority > right_priority {
        Ordering::Less
    } else if left_priority < right_priority {
        Ordering::Greater
    } else if left_age < right_age {
        Ordering::Less
    } else if left_age > right_age {
        Ordering::Greater
    } else if left_resident.0 < right_resident.0 {
        Ordering::Less
    } else if left_resident.0 > right_resident.0 {
        Ordering::Greater
    } else {
        Ordering::Equal
    }
}

/// Orders use requests by when they are served: priority, then request age,
/// then `SimId`.
pub fn compare_use_requests(left: &UseRequest, right: &UseRequest) -> (r: Ordering)
    ensures
        r == Ordering::Less <==> left.standing().outranks(right.standing()),
        r == Ordering::Greater <==> right.standing().outranks(left.standing()),
{
    compare_standings(
        effective_priority(left.band, left.priority),
        left.request_age,
        left.resident,
        effective_priority(right.band, right.priority),
        right.request_age,
        right.resident,
    )
}

/// Orders movement claims by when they are served: priority, then request
/// age, then `SimId`.
pub fn compare_movement_claims(left: &MovementClaim, right: &MovementClaim) -> (r: Ordering)
    ensures
        r == Ordering::Less <==> left.standing().outranks(right.standing()),
        r == Ordering::Greater <==> right.standing().outranks(left.standing()),
{
    compare_standings(
        effective_priority(left.band, left.priority),
        left.request_age,
        left.resident,
        effective_priority(right.band, right.priority),
        right.request_age,
        right.resident,
    )
}

/// Arbitration is strict: nothing outranks itself, two claims never outrank
/// each other, and the order is transitive.
pub proof fn law_arbitration_is_a_strict_order(a: Standing, b: Standing, c: Standing)
    ensures
        !a.outranks(a),
        !(a.outranks(b) && b.outranks(a)),
        a.outranks(b) && b.outranks(c) ==> a.outranks(c),
{
}

/// Between claims of different residents arbitration always decides.
pub proof fn law_arbitration_always_decides(a: Standing, b: Standing)
    requires
        a.resident != b.resident,
    ensures
        a.outranks(b) || b.outranks(a),
{
}

/// A higher band dominates every fine priority difference smaller than the
/// distance between the bands.
pub proof fn law_higher_band_dominates(a: UseRequest, b: UseRequest)
    requires
        a.band.spec_base() > b.band.spec_base(),
        b.priority - a.priority < 1_000,
    ensures
        a.standing().outranks(b.standing()),
{
}

/// A band counts for a thousand of fine priority more than the band below it;
/// the lowest counts for nothing.
pub proof fn law_bands_are_a_thousand_apart()
    ensures
        ActionBand::Autonomous.spec_base() == 0,
        ActionBand::Player.spec_base() == 1_000,
        ActionBand::Urgent.spec_base() == 2_000,
        ActionBand::Mandatory.spec_base() == 3_000,
{
}

/// Use requests and movement claims rank alike: the larger sum of band and fine
/// priority first, on equal sums the older request, on equal ages the lower
/// `SimId`.
pub proof fn law_requests_and_claims_rank_alike(
    a: UseRequest,
    b: UseRequest,
    c: MovementClaim,
    d: MovementClaim,
)
    ensures
        a.standing().outranks(b.standing()) <==> {
            ||| a.band.spec_base() + a.priority > b.band.spec_base() + b.priority
            ||| {
                &&& a.band.spec_base() + a.priority == b.band.spec_base() + b.priority
                &&& a.request_age < b.request_age || (a.request_age == b.request_age
                    && a.resident.0 < b.resident.0)
            }
        },
        c.standing().outranks(d.standing()) <==> {
            ||| c.band.spec_base() + c.priority > d.band.spec_base() + d.priority
            ||| {
                &&& c.band.spec_base() + c.priority == d.band.spec_base() + d.priority
                &&& c.request_age < d.request_age || (c.request_age == d.request_age
                    && c.resident.0 < d.resident.0)
            }
        },
{
}

/// A request for an urgent need outranks every player request whose fine
/// priority is less than a thousand above its own, and every autonomous one
/// whose fine priority is less than two thousand above; a player request
/// outranks every autonomous one less than a thousand above it.
pub proof fn law_urgent_before_player_before_autonomous(a: UseRequest, b: UseRequest)
    ensures
        a.band == ActionBand::Urgent && b.band == ActionBand::Player && b.priority < a.priority
            + 1_000 ==> a.standing().outranks(b.standing()),
        a.band == ActionBand::Urgent && b.band == ActionBand::Autonomous && b.priority
            < a.priority + 2_000 ==> a.standing().outranks(b.standing()),
        a.band == ActionBand::Player && b.band == ActionBand::Autonomous && b.priority
            < a.priority + 1_000 ==> a.standing().outranks(b.standing()),
{
}

} // verus!
