//! Player commands, immutable world events and the keyed draw.

use vstd::prelude::*;

use crate::clock::TimeOfDay;
use crate::content::TilePosition;
use crate::identity::DefinitionId;
use crate::identity::PlayerTaskId;
use crate::identity::SimId;

verus! {

/// A typed order submitted by the presentation client. Commands enter the
/// authoritative inbox immediately but are only validated during the next
/// tick's ingest phase.
#[derive(Clone, Debug, Eq, PartialEq)]
pub enum PlayerCommand {
    QueueGoTo { task: PlayerTaskId, resident: SimId, destination: TilePosition, priority: i32 },
    QueueUseToilet {
        task: PlayerTaskId,
        resident: SimId,
        object: DefinitionId,
        affordance: DefinitionId,
        priority: i32,
    },
    CancelPlayerTask { task: PlayerTaskId },
}

impl PlayerCommand {
    /// The order a command is about.
    pub open spec fn spec_task(self) -> PlayerTaskId {
        match self {
            PlayerCommand::QueueGoTo { task, .. } => task,
            PlayerCommand::QueueUseToilet { task, .. } => task,
            PlayerCommand::CancelPlayerTask { task } => task,
        }
    }

    /// The order a command is about.
    #[must_use]
    pub fn task(&self) -> (r: PlayerTaskId)
        ensures
            r == self.spec_task(),
    {
        match self {
            PlayerCommand::QueueGoTo { task, .. } => *task,
            PlayerCommand::QueueUseToilet { task, .. } => *task,
            PlayerCommand::CancelPlayerTask { task } => *task,
        }
    }
}

/// Why a next-tick player command receipt was rejected.
#[derive(Clone, Copy, Debug, Eq, PartialEq, Structural)]
pub enum PlayerCommandRejection {
    DuplicateTask,
    InvalidMoveTarget,
    InvalidUseTarget,
    ResidentBusy,
    UnknownResident,
    UnknownTask,
    TaskNotCancellable,
}

/// Immutable outcome emitted by the authoritative simulation.
#[derive(Clone, Debug, Eq, PartialEq)]
pub struct WorldEvent {
    pub tick: u64,
    pub kind: WorldEventKind,
}

/// Semantic event kinds. The village-evening kinds at the end are understood
/// by the client's event feed; the runner publishes none of them yet.
#[derive(Clone, Debug, Eq, PartialEq)]
pub enum WorldEventKind {
    TickCompleted {
        /// A keyed deterministic draw that ties every tick to the seed.
        keyed_marker: u64,
    },
    GoToArrived { resident: SimId, destination: TilePosition },
    GoToWaited { resident: SimId, blocked_by: SimId, position: TilePosition },
    GoToFailed { resident: SimId, destination: TilePosition },
    GoToCancelled { task: PlayerTaskId, resident: SimId, destination: TilePosition },
    ObjectUseStarted { resident: SimId, object: DefinitionId, affordance: DefinitionId },
    ObjectUseWaited {
        resident: SimId,
        object: DefinitionId,
        affordance: DefinitionId,
        blocked_by: SimId,
    },
    ObjectUseCompleted { resident: SimId, object: DefinitionId, affordance: DefinitionId },
    ToiletNeedRecovered { resident: SimId, value: u8 },
    PlayerCommandAccepted { task: PlayerTaskId },
    PlayerCommandRejected { task: PlayerTaskId, reason: PlayerCommandRejection },
    TaskCancelled {
        task: PlayerTaskId,
        resident: SimId,
        object: DefinitionId,
        affordance: DefinitionId,
    },
    NeighbourInvitation { host: DefinitionId, event_at: TimeOfDay },
    QuizArrived { resident: SimId },
    PargeterSeatTaken { participant: SimId, witnessed_by: Vec<SimId> },
}

/// The product of two words, modulo the word size.
pub open spec fn product(a: u64, b: u64) -> u64 {
    (a * b % 0x1_0000_0000_0000_0000) as u64
}

/// What a draw is keyed by, folded into one word.
pub open spec fn draw_key(seed: u64, tick: u64, event_id: u64, purpose: u64) -> u64 {
    seed ^ product(tick, 0x9E37_79B9_7F4A_7C15) ^ product(event_id, 0xD1B5_4A32_D192_ED03)
        ^ product(purpose, 0x94D0_49BB_1331_11EB)
}

/// A stable integer mixer: two rounds of shifting and odd multiplication.
pub open spec fn mixed(key: u64) -> u64 {
    let first = product(key ^ (key >> 30), 0xBF58_476D_1CE4_E5B9);
    let second = product(first ^ (first >> 27), 0x94D0_49BB_1331_11EB);
    second ^ (second >> 31)
}

/// A draw that depends on nothing but its keys.
pub fn keyed_draw(seed: u64, tick: u64, event_id: u64, purpose: u64) -> (r: u64)
    ensures
        r == mixed(draw_key(seed, tick, event_id, purpose)),
{
    // A stable integer mixer rather than a standard hash, whose implementation
    // is not a simulation compatibility contract. Action code supplies a
    // distinct event ID and purpose for each authored random decision.
    let mut value: u64 = seed ^ tick.wrapping_mul(0x9E37_79B9_7F4A_7C15) ^ event_id.wrapping_mul(
        0xD1B5_4A32_D192_ED03,
    ) ^ purpose.wrapping_mul(0x94D0_49BB_1331_11EB);
    value = value ^ (value >> 30);
    value = value.wrapping_mul(0xBF58_476D_1CE4_E5B9);
    value = value ^ (value >> 27);
    value = value.wrapping_mul(0x94D0_49BB_1331_11EB);
    value ^ (value >> 31)
}

/// Multiplying by a word that has an inverse loses nothing.
proof fn lemma_product_injective(a: u64, b: u64, factor: u64, inverse: u64, wraps: int)
    requires
        factor * inverse == 1 + wraps * 0x1_0000_0000_0000_0000,
        product(a, factor) == product(b, factor),
    ensures
        a == b,
{
    lemma_product_undone(a, factor, inverse, wraps);
    lemma_product_undone(b, factor, inverse, wraps);
}

/// Multiplying by a word and then by its inverse gives the word back.
proof fn lemma_product_undone(a: u64, factor: u64, inverse: u64, wraps: int)
    requires
        factor * inverse == 1 + wraps * 0x1_0000_0000_0000_0000,
    ensures
        product(a, factor) * inverse % 0x1_0000_0000_0000_0000 == a,
{
    let word: int = 0x1_0000_0000_0000_0000;
    let x: int = a as int;
    let f: int = factor as int;
    let g: int = inverse as int;
    vstd::arithmetic::div_mod::lemma_mul_mod_noop_left(x * f, g, word);
    assert(product(a, factor) == (x * f) % word);
    assert((x * f) * g == x * (f * g)) by (nonlinear_arith);
    assert(x * (1 + wraps * word) == (x * wraps) * word + x) by (nonlinear_arith);
    assert((x * wraps) * word == word * (x * wraps)) by (nonlinear_arith);
    vstd::arithmetic::div_mod::lemma_mod_multiples_vanish(x * wraps, x, word);
    vstd::arithmetic::div_mod::lemma_small_mod(a as nat, word as nat);
}

/// The mixer loses nothing: different keys are mixed to different draws.
proof fn lemma_mixed_injective(a: u64, b: u64)
    requires
        mixed(a) == mixed(b),
    ensures
        a == b,
{
    let a1 = a ^ (a >> 30);
    let b1 = b ^ (b >> 30);
    let a2 = product(a1, 0xBF58_476D_1CE4_E5B9);
    let b2 = product(b1, 0xBF58_476D_1CE4_E5B9);
    let a3 = a2 ^ (a2 >> 27);
    let b3 = b2 ^ (b2 >> 27);
    let a4 = product(a3, 0x94D0_49BB_1331_11EB);
    let b4 = product(b3, 0x94D0_49BB_1331_11EB);
    assert(a4 == b4) by (bit_vector)
        requires
            a4 ^ (a4 >> 31) == b4 ^ (b4 >> 31),
    ;
    assert(0x94D0_49BB_1331_11EBu64 * 0x3196_42B2_D24D_8EC3u64 == 1 + 2077064247507883091int
        * 0x1_0000_0000_0000_0000);
    lemma_product_injective(
        a3,
        b3,
        0x94D0_49BB_1331_11EB,
        0x3196_42B2_D24D_8EC3,
        2077064247507883091,
    );
    assert(a2 == b2) by (bit_vector)
        requires
            a2 ^ (a2 >> 27) == b2 ^ (b2 >> 27),
    ;
    assert(0xBF58_476D_1CE4_E5B9u64 * 0x96DE_1B17_3F11_9089u64 == 1 + 8125545580553827436int
        * 0x1_0000_0000_0000_0000);
    lemma_product_injective(
        a1,
        b1,
        0xBF58_476D_1CE4_E5B9,
        0x96DE_1B17_3F11_9089,
        8125545580553827436,
    );
    assert(a == b) by (bit_vector)
        requires
            a ^ (a >> 30) == b ^ (b >> 30),
    ;
}

/// Different seeds give different draws for the same tick, event and purpose.
pub proof fn law_different_seeds_draw_differently(
    seed: u64,
    other: u64,
    tick: u64,
    event_id: u64,
    purpose: u64,
)
    requires
        seed != other,
    ensures
        mixed(draw_key(seed, tick, event_id, purpose)) != mixed(
            draw_key(other, tick, event_id, purpose),
        ),
{
    if mixed(draw_key(seed, tick, event_id, purpose)) == mixed(
        draw_key(other, tick, event_id, purpose),
    ) {
        lemma_mixed_injective(
            draw_key(seed, tick, event_id, purpose),
            draw_key(other, tick, event_id, purpose),
        );
        let t = product(tick, 0x9E37_79B9_7F4A_7C15);
        let e = product(event_id, 0xD1B5_4A32_D192_ED03);
        let p = product(purpose, 0x94D0_49BB_1331_11EB);
        assert(seed == other) by (bit_vector)
            requires
                seed ^ t ^ e ^ p == other ^ t ^ e ^ p,
        ;
    }
}

} // verus!
