//! How far a robot may go on its plan.

use crate::executor::{
    count_before, lemma_place_is_count, ordered, stands_at, takes_part, Entry, PlanExecutor,
};
use crate::messages::{Blocker, BlockerView, Plan, PlanRelease, Position, Waypoint, WaypointView};
use crate::single::Single;
use vstd::prelude::*;

verus! {

/// 0.8 in single precision: a robot nearer than this to a waypoint stands in its way.
pub const CLEARANCE: u32 = 0x3f4c_cccd;

/// How far a robot has come on its own plan, by its name.
pub open spec fn progress_of(fleet: Seq<Entry>, progress: Seq<usize>, name: Seq<char>) -> Option<
    usize,
> {
    if takes_part(fleet, name) {
        Some(progress[count_before(fleet, name) as int])
    } else {
        None
    }
}

/// The blocker takes part and has come as far as is required.
pub open spec fn clears(fleet: Seq<Entry>, progress: Seq<usize>, blocker: BlockerView) -> bool {
    progress_of(fleet, progress, blocker.name) matches Some(reached) && reached
        >= blocker.required_progress.round_index()
}

/// No blocker keeps a robot from leaving the waypoint behind.
pub open spec fn passable(
    fleet: Seq<Entry>,
    progress: Seq<usize>,
    waypoint: WaypointView,
) -> bool {
    forall|k: int|
        0 <= k < waypoint.departure_blockers.len() ==> #[trigger] clears(
            fleet,
            progress,
            waypoint.departure_blockers[k],
        )
}

/// The first waypoint from `from` on that is not passable, or what comes after the last one.
pub open spec fn frontier(
    fleet: Seq<Entry>,
    progress: Seq<usize>,
    waypoints: Seq<WaypointView>,
    from: int,
) -> int
    decreases waypoints.len() - from,
{
    if from >= waypoints.len() || !passable(fleet, progress, waypoints[from]) {
        from
    } else {
        frontier(fleet, progress, waypoints, from + 1)
    }
}

/// The way from each of the first `n` robots to a position, but for the robot `agent` itself.
pub open spec fn offsets(fleet: Seq<Entry>, agent: int, target: Position, n: nat) -> Seq<Position>
    decreases n,
{
    if n == 0 {
        Seq::empty()
    } else {
        let rest: Seq<Position> = offsets(fleet, agent, target, (n - 1) as nat);
        match fleet[n - 1].state.place() {
            Some(other) => if n - 1 == agent {
                rest
            } else {
                rest.push(
                    Position {
                        x: target.x.difference(other.x),
                        y: target.y.difference(other.y),
                    },
                )
            },
            None => rest,
        }
    }
}

/// One of the distances is below the clearance.
pub open spec fn crowded(distances: Seq<Single>) -> bool {
    exists|k: int|
        0 <= k < distances.len() && (#[trigger] distances[k]).below(Single { bits: CLEARANCE })
}

/// The waypoint that is released: the frontier, or the one before it where another robot is too
/// near to the frontier; never beyond the last one.
pub open spec fn settled(frontier: int, count: int, distances: Seq<Single>) -> int {
    if frontier >= count {
        count - 1
    } else if crowded(distances) && frontier > 0 {
        frontier - 1
    } else {
        frontier
    }
}

impl PlanExecutor {
    /// The plan of a robot that has one.
    pub(crate) fn plan_of(&self, agent: usize) -> (r: &Plan)
        requires
            agent < self@.fleet.len(),
            self@.fleet[agent as int].state.plan is Some,
        ensures
            self@.fleet[agent as int].state.plan == Some(r@),
    {
        self.active_robots[agent].state.plan.as_ref().unwrap()
    }

    /// Whether no blocker keeps a robot from leaving the waypoint behind.
    fn is_passable(&self, waypoint: &Waypoint, progress: &Vec<usize>) -> (r: bool)
        requires
            self.wf(),
            progress@.len() == self@.fleet.len(),
        ensures
            r == passable(self@.fleet, progress@, waypoint@),
    {
        let mut k: usize = 0;
        while k < waypoint.departure_blockers.len()
            invariant
                self.wf(),
                progress@.len() == self@.fleet.len(),
                k <= waypoint.departure_blockers@.len(),
                forall|j: int|
                    0 <= j < k ==> #[trigger] clears(
                        self@.fleet,
                        progress@,
                        waypoint@.departure_blockers[j],
                    ),
            decreases waypoint.departure_blockers@.len() - k,
        {
            let blocker: &Blocker = &waypoint.departure_blockers[k];
            assert(waypoint@.departure_blockers[k as int] == blocker@);
            let clear: bool = match self.get_agent_index(blocker.name.as_str()) {
                Some(i) => progress[i] >= blocker.required_progress.round_to_usize(),
                None => false,
            };
            if !clear {
                assert(!clears(self@.fleet, progress@, waypoint@.departure_blockers[k as int]));
                return false;
            }
            k = k + 1;
        }
        true
    }

    /// The first waypoint of a robot, from where it is now, that it may not leave behind yet.
    pub fn release_frontier(&self, agent: usize, progress: &Vec<usize>) -> (r: usize)
        requires
            self.wf(),
            progress@.len() == self@.fleet.len(),
            agent < self@.fleet.len(),
            self@.fleet[agent as int].state.plan is Some,
        ensures
            r == frontier(
                self@.fleet,
                progress@,
                self@.fleet[agent as int].state.plan->0.waypoints,
                progress@[agent as int] as int,
            ),
    {
        let own: &Plan = self.plan_of(agent);
        let mut released: usize = progress[agent];
        while released < own.waypoints.len()
            invariant
                self.wf(),
                progress@.len() == self@.fleet.len(),
                agent < self@.fleet.len(),
                frontier(self@.fleet, progress@, own@.waypoints, progress@[agent as int] as int)
                    == frontier(self@.fleet, progress@, own@.waypoints, released as int),
            ensures
                frontier(self@.fleet, progress@, own@.waypoints, released as int) == released,
            decreases own.waypoints.len() - released,
        {
            assert(own@.waypoints[released as int] == own.waypoints@[released as int]@);
            if !self.is_passable(&own.waypoints[released], progress) {
                break ;
            }
            released = released + 1;
        }
        released
    }

    /// The way from each of the other robots to the waypoint at the frontier; none where the
    /// frontier is beyond the last waypoint.
    pub fn frontier_offsets(&self, agent: usize, frontier: usize) -> (r: Vec<Position>)
        requires
            agent < self@.fleet.len(),
            self@.fleet[agent as int].state.plan is Some,
        ensures
            r@ == if frontier < self@.fleet[agent as int].state.plan->0.waypoints.len() {
                offsets(
                    self@.fleet,
                    agent as int,
                    self@.fleet[agent as int].state.plan->0.waypoints[frontier as int].position,
                    self@.fleet.len(),
                )
            } else {
                Seq::empty()
            },
    {
        let mut out: Vec<Position> = Vec::new();
        let own: &Plan = self.plan_of(agent);
        if frontier >= own.waypoints.len() {
            return out;
        }
        let target: Position = own.waypoints[frontier].position;
        let mut i: usize = 0;
        while i < self.active_robots.len()
            invariant
                i <= self.active_robots@.len(),
                out@ == offsets(self@.fleet, agent as int, target, i as nat),
            decreases self.active_robots@.len() - i,
        {
            assert(self@.fleet[i as int] == self.active_robots@[i as int]@);
            if i != agent {
                if let Some(odom) = &self.active_robots[i].state.latest_odom {
                    let other: Position = odom.position();
                    out.push(
                        Position { x: target.x.minus(other.x), y: target.y.minus(other.y) },
                    );
                }
            }
            i = i + 1;
        }
        out
    }

    /// The waypoint that is released to a robot, given how far the other robots are from the
    /// waypoint at the frontier.
    pub fn settle_release(&self, agent: usize, frontier: usize, distances: &Vec<Single>) -> (r:
        usize)
        requires
            agent < self@.fleet.len(),
            self@.fleet[agent as int].state.plan is Some,
            self@.fleet[agent as int].state.plan->0.waypoints.len() > 0,
        ensures
            r == settled(
                frontier as int,
                self@.fleet[agent as int].state.plan->0.waypoints.len() as int,
                distances@,
            ),
    {
        let count: usize = self.plan_of(agent).waypoints.len();
        if frontier >= count {
            return count - 1;
        }
        let mut k: usize = 0;
        while k < distances.len()
            invariant
                k <= distances@.len(),
                frontier < count,
                count == self@.fleet[agent as int].state.plan->0.waypoints.len(),
                forall|j: int|
                    0 <= j < k ==> !(#[trigger] distances@[j]).below(Single { bits: CLEARANCE }),
            decreases distances@.len() - k,
        {
            if distances[k].less_than(Single { bits: CLEARANCE }) {
                assert(crowded(distances@));
                return if frontier > 0 { frontier - 1 } else { 0 };
            }
            k = k + 1;
        }
        frontier
    }

    /// The permission for a robot to go as far as a waypoint of its plan.
    pub fn plan_release(&self, agent: usize, released: usize) -> (r: PlanRelease)
        requires
            agent < self@.fleet.len(),
            self@.fleet[agent as int].state.plan is Some,
        ensures
            r == (PlanRelease {
                waypoint_id: released as u64,
                plan_id: self@.fleet[agent as int].state.plan->0.plan_id,
            }),
    {
        PlanRelease { waypoint_id: released as u64, plan_id: self.plan_of(agent).plan_id }
    }
}

/// Everything between where a robot is and the frontier is passable, and the frontier itself is
/// not, unless it is beyond the last waypoint.
pub proof fn law_frontier_is_first_blocked(
    fleet: Seq<Entry>,
    progress: Seq<usize>,
    waypoints: Seq<WaypointView>,
    from: int,
)
    requires
        0 <= from,
    ensures
        from <= frontier(fleet, progress, waypoints, from),
        from < frontier(fleet, progress, waypoints, from) ==> frontier(
            fleet,
            progress,
            waypoints,
            from,
        ) <= waypoints.len(),
        forall|i: int|
            from <= i < frontier(fleet, progress, waypoints, from) ==> #[trigger] passable(
                fleet,
                progress,
                waypoints[i],
            ),
        frontier(fleet, progress, waypoints, from) < waypoints.len() ==> !passable(
            fleet,
            progress,
            waypoints[frontier(fleet, progress, waypoints, from)],
        ),
    decreases waypoints.len() - from,
{
    if from < waypoints.len() && passable(fleet, progress, waypoints[from]) {
        law_frontier_is_first_blocked(fleet, progress, waypoints, from + 1);
    }
}

/// A waypoint with a blocker that does not take part is not passable, however far the robots
/// have come.
pub proof fn law_absent_blocker_blocks(
    fleet: Seq<Entry>,
    progress: Seq<usize>,
    waypoint: WaypointView,
    k: int,
)
    requires
        0 <= k < waypoint.departure_blockers.len(),
        !takes_part(fleet, waypoint.departure_blockers[k].name),
    ensures
        !passable(fleet, progress, waypoint),
{
    assert(!clears(fleet, progress, waypoint.departure_blockers[k]));
}

/// The more the other robots have come forward, the farther a robot may go.
pub proof fn law_progress_never_blocks(
    fleet: Seq<Entry>,
    before: Seq<usize>,
    after: Seq<usize>,
    waypoints: Seq<WaypointView>,
    from: int,
)
    requires
        0 <= from,
        ordered(fleet),
        before.len() == fleet.len(),
        after.len() == fleet.len(),
        forall|i: int| 0 <= i < before.len() ==> before[i] <= #[trigger] after[i],
    ensures
        frontier(fleet, before, waypoints, from) <= frontier(fleet, after, waypoints, from),
    decreases waypoints.len() - from,
{
    if from < waypoints.len() && passable(fleet, before, waypoints[from]) {
        let blockers: Seq<BlockerView> = waypoints[from].departure_blockers;
        assert forall|k: int| 0 <= k < blockers.len() implies #[trigger] clears(
            fleet,
            after,
            blockers[k],
        ) by {
            assert(clears(fleet, before, blockers[k]));
            let name: Seq<char> = blockers[k].name;
            let i: int = choose|i: int| stands_at(fleet, name, i);
            lemma_place_is_count(fleet, name, i);
            assert(before[i] <= after[i]);
        }
        law_progress_never_blocks(fleet, before, after, waypoints, from + 1);
    } else {
        law_frontier_is_first_blocked(fleet, after, waypoints, from);
    }
}

/// What is released is a waypoint of the plan, never past the frontier, and at most one short of
/// it where there is a waypoint at the frontier.
pub proof fn law_release_stays_on_plan(frontier: int, count: int, distances: Seq<Single>)
    requires
        0 <= frontier,
        0 < count,
    ensures
        0 <= settled(frontier, count, distances) < count,
        settled(frontier, count, distances) <= frontier,
        frontier < count ==> settled(frontier, count, distances) >= frontier - 1,
{
}

} // verus!
