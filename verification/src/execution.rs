//! One round of execution for a robot that has reported its position: what is to be measured,
//! and what follows from it.

use crate::executor::{all_ready, count_before, takes_part, ExecutorView, PlanExecutor};
use crate::floor::{extent_of, footprint_of, occupied_positions, AgentFootprint, Extent};
use crate::messages::{PlanRelease, Position};
use crate::release::{frontier, offsets, settled};
use crate::single::Single;
use vstd::prelude::*;

verus! {

/// What is to be measured before a waypoint is released: how long each offset is.
#[derive(Debug)]
pub struct ReleaseQuery {
    /// Which agent the robot is.
    pub agent: usize,
    /// The first waypoint that the robot may not leave behind yet.
    pub frontier: usize,
    /// The way from each of the other robots to that waypoint.
    pub offsets: Vec<Position>,
}

/// What follows once that is measured.
#[derive(Debug)]
pub struct ReleaseStep {
    /// The waypoint that is released.
    pub released: usize,
    /// The permission to be sent to the robot.
    pub release: PlanRelease,
    /// The floor grid was laid anew.
    pub relaid: bool,
    /// What the allocation of floor space needs to know of the robots, in their order.
    pub footprints: Vec<AgentFootprint>,
}

/// The state with the floor grid laid so that every robot and every waypoint is on it.
pub open spec fn fitted(state: ExecutorView) -> ExecutorView {
    let extent: Extent = extent_of(occupied_positions(state.fleet, state.fleet.len()));
    if state.outgrown_by(extent) {
        state.laid_around(extent)
    } else {
        state
    }
}

impl PlanExecutor {
    /// Finds out how far a robot may go by its plan. `progress` holds, for each robot in order,
    /// the waypoint that it has reached.
    pub fn begin_release(&self, robot_id: &str, progress: &Vec<usize>) -> (r: ReleaseQuery)
        requires
            self.wf(),
            all_ready(self@.fleet),
            takes_part(self@.fleet, robot_id@),
            progress@.len() == self@.fleet.len(),
        ensures
            r.agent == count_before(self@.fleet, robot_id@),
            r.agent < self@.fleet.len(),
            r.frontier == frontier(
                self@.fleet,
                progress@,
                self@.fleet[r.agent as int].state.plan->0.waypoints,
                progress@[r.agent as int] as int,
            ),
            r.offsets@ == if r.frontier
                < self@.fleet[r.agent as int].state.plan->0.waypoints.len() {
                offsets(
                    self@.fleet,
                    r.agent as int,
                    self@.fleet[r.agent as int].state.plan->0.waypoints[r.frontier as int].position,
                    self@.fleet.len(),
                )
            } else {
                Seq::empty()
            },
    {
        let (_, agent) = self.find(robot_id);
        assert(self@.fleet[agent as int].state.ready());
        let frontier: usize = self.release_frontier(agent, progress);
        let offsets: Vec<Position> = self.frontier_offsets(agent, frontier);
        ReleaseQuery { agent, frontier, offsets }
    }

    /// Releases a waypoint, given the lengths of the offsets, and lays the floor grid anew where
    /// need be.
    pub fn finish_release(&mut self, agent: usize, frontier: usize, distances: &Vec<Single>) -> (r:
        ReleaseStep)
        requires
            old(self).wf(),
            all_ready(old(self)@.fleet),
            agent < old(self)@.fleet.len(),
            old(self)@.fleet[agent as int].state.plan->0.waypoints.len() > 0,
        ensures
            final(self).wf(),
            final(self)@ == fitted(old(self)@),
            final(self)@.fleet == old(self)@.fleet,
            r.released == settled(
                frontier as int,
                old(self)@.fleet[agent as int].state.plan->0.waypoints.len() as int,
                distances@,
            ),
            r.release == (PlanRelease {
                waypoint_id: r.released as u64,
                plan_id: old(self)@.fleet[agent as int].state.plan->0.plan_id,
            }),
            r.relaid == old(self)@.outgrown_by(
                extent_of(occupied_positions(old(self)@.fleet, old(self)@.fleet.len())),
            ),
            r.footprints@.len() == final(self)@.fleet.len(),
            forall|i: int|
                0 <= i < r.footprints@.len() ==> footprint_of(
                    final(self)@,
                    #[trigger] r.footprints@[i],
                    final(self)@.fleet[i],
                ),
    {
        assert(self@.fleet[agent as int].state.ready());
        let released: usize = self.settle_release(agent, frontier, distances);
        let release: PlanRelease = self.plan_release(agent, released);
        let relaid: bool = self.fit_grid();
        let footprints: Vec<AgentFootprint> = self.footprints();
        ReleaseStep { released, release, relaid, footprints }
    }
}

} // verus!
