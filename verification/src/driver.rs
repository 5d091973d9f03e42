//! Running the simulation for a client: ticks and the snapshots around them.

use vstd::prelude::*;

use crate::events::PlayerCommand;
use crate::simulation::Simulation;
use crate::snapshot::CottageSnapshot;
use crate::village::Village;

verus! {

/// A running simulation with the snapshots before and after its last tick.
pub struct SimulationDriver {
    pub simulation: Simulation,
    pub previous: CottageSnapshot,
    pub current: CottageSnapshot,
}

/// The village `ticks` ticks later.
pub open spec fn later(village: Village, ticks: nat) -> Village
    decreases ticks,
{
    if ticks == 0 {
        village
    } else {
        later(village, (ticks - 1) as nat).advance()
    }
}

impl SimulationDriver {
    /// The simulation is well-formed and the current snapshot shows it.
    pub open spec fn wf(&self) -> bool {
        self.simulation.wf() && self.simulation@.shows(self.current)
    }

    /// Starts running a simulation: both snapshots show it as it is.
    #[must_use]
    pub fn new(simulation: Simulation) -> (r: Self)
        requires
            simulation.wf(),
        ensures
            r.wf(),
            r.simulation@ == simulation@,
            r.simulation@.shows(r.previous),
    {
        let previous = simulation.cottage_snapshot();
        let current = simulation.cottage_snapshot();
        SimulationDriver { simulation, previous, current }
    }

    /// Hands a command to the simulation, which validates it during the next
    /// tick. What is shown stays as it is.
    pub fn submit(&mut self, command: PlayerCommand)
        requires
            old(self).wf(),
        ensures
            final(self).wf(),
            final(self).simulation@ == old(self).simulation@.submit(command),
            final(self).previous == old(self).previous,
            final(self).current == old(self).current,
            old(self).simulation@.valid() ==> final(self).simulation@.valid(),
            old(self).simulation@.dated() ==> final(self).simulation@.dated(),
    {
        self.simulation.submit_player_command(command);
        proof {
            old(self).simulation@.law_submission_is_not_shown(command, self.current);
        }
    }

    /// Consumes one tick: the current snapshot becomes the previous one, and
    /// the new one shows the village after the tick.
    pub fn advance(&mut self)
        requires
            old(self).wf(),
            old(self).simulation@.tick < u64::MAX,
        ensures
            final(self).wf(),
            final(self).previous == old(self).current,
            final(self).simulation@ == old(self).simulation@.advance(),
            old(self).simulation@.valid() ==> final(self).simulation@.valid(),
            old(self).simulation@.valid() && old(self).simulation@.dated()
                ==> final(self).simulation@.dated(),
    {
        std::mem::swap(&mut self.previous, &mut self.current);
        self.simulation.advance_tick();
        self.current = self.simulation.cottage_snapshot();
    }

    /// Consumes as many ticks as have elapsed in a frame.
    pub fn advance_by(&mut self, ticks: u32)
        requires
            old(self).wf(),
            old(self).simulation@.valid(),
            old(self).simulation@.tick + ticks <= u64::MAX,
        ensures
            final(self).wf(),
            final(self).simulation@.valid(),
            final(self).simulation@ == later(old(self).simulation@, ticks as nat),
            final(self).simulation@.tick == old(self).simulation@.tick + ticks,
            old(self).simulation@.dated() ==> final(self).simulation@.dated(),
            ticks == 0 ==> final(self).previous == old(self).previous,
            ticks > 0 ==> later(old(self).simulation@, (ticks - 1) as nat).shows(
                final(self).previous,
            ),
    {
        let mut i: u32 = 0;
        while i < ticks
            invariant
                i <= ticks,
                self.wf(),
                self.simulation@.valid(),
                self.simulation@.tick == old(self).simulation@.tick + i,
                old(self).simulation@.tick + ticks <= u64::MAX,
                self.simulation@ == later(old(self).simulation@, i as nat),
                old(self).simulation@.dated() ==> self.simulation@.dated(),
                i == 0 ==> self.previous == old(self).previous,
                i > 0 ==> later(old(self).simulation@, (i - 1) as nat).shows(self.previous),
            decreases ticks - i,
        {
            proof {
                self.simulation@.law_tick_moves_the_clock_one_minute();
            }
            self.advance();
            i = i + 1;
        }
    }
}

} // verus!
