//! The floor grid: keeping every robot and every waypoint on it, and handing the robots' ways
//! over in its coordinates.

use crate::double::Double;
use crate::executor::{all_ready, Entry, ExecutorView, PlanExecutor, DOUBLE_ONE};
use crate::grid::{LARGEST, SMALLEST};
use crate::messages::{Odometry, Plan, Point, Pose, Position, Quaternion};
use crate::single::Single;
use vstd::prelude::*;

verus! {

/// 20 in single precision: how far the grid reaches beyond what it has to hold.
pub const MARGIN: u32 = 0x41a0_0000;

/// The smallest rectangle around some positions.
#[derive(Clone, Copy, Debug, PartialEq)]
pub struct Extent {
    pub min_x: Single,
    pub min_y: Single,
    pub max_x: Single,
    pub max_y: Single,
}

impl Extent {
    /// The rectangle around nothing.
    pub open spec fn nothing() -> Extent {
        Extent {
            min_x: Single { bits: LARGEST },
            min_y: Single { bits: LARGEST },
            max_x: Single { bits: SMALLEST },
            max_y: Single { bits: SMALLEST },
        }
    }

    /// The rectangle, and one more position.
    pub open spec fn with(self, p: Position) -> Extent {
        Extent {
            min_x: self.min_x.lesser(p.x),
            min_y: self.min_y.lesser(p.y),
            max_x: self.max_x.greater(p.x),
            max_y: self.max_y.greater(p.y),
        }
    }

    fn include_position(self, p: Position) -> (r: Extent)
        ensures
            r == self.with(p),
    {
        Extent {
            min_x: self.min_x.min(p.x),
            min_y: self.min_y.min(p.y),
            max_x: self.max_x.max(p.x),
            max_y: self.max_y.max(p.y),
        }
    }
}

/// The smallest rectangle around a list of positions.
pub open spec fn extent_of(positions: Seq<Position>) -> Extent
    decreases positions.len(),
{
    if positions.len() == 0 {
        Extent::nothing()
    } else {
        extent_of(positions.drop_last()).with(positions.last())
    }
}

/// Where the first `n` robots are, each followed by the waypoints of its plan.
pub open spec fn occupied_positions(fleet: Seq<Entry>, n: nat) -> Seq<Position>
    decreases n,
{
    if n == 0 {
        Seq::empty()
    } else {
        occupied_positions(fleet, (n - 1) as nat).push(fleet[n - 1].state.place()->0)
            + fleet[n - 1].state.plan->0.route()
    }
}

impl ExecutorView {
    /// The least x of the grid.
    pub open spec fn low_x(self) -> Single {
        self.grid_origin.position.x.narrowed()
    }

    /// The least y of the grid.
    pub open spec fn low_y(self) -> Single {
        self.grid_origin.position.y.narrowed()
    }

    /// The greatest x of the grid.
    pub open spec fn high_x(self) -> Single {
        self.low_x().sum(Single::of_integer(self.grid_width as int).product(self.grid_resolution))
    }

    /// The greatest y of the grid.
    pub open spec fn high_y(self) -> Single {
        self.low_y().sum(Single::of_integer(self.grid_height as int).product(self.grid_resolution))
    }

    /// The rectangle reaches beyond the grid.
    pub open spec fn outgrown_by(self, extent: Extent) -> bool {
        ||| extent.min_x.below(self.low_x())
        ||| extent.min_y.below(self.low_y())
        ||| self.high_x().below(extent.max_x)
        ||| self.high_y().below(extent.max_y)
    }

    /// The grid laid anew around a rectangle, with a margin on every side.
    pub open spec fn laid_around(self, extent: Extent) -> ExecutorView {
        let margin: Single = Single { bits: MARGIN };
        let low_x: Single = extent.min_x.difference(margin);
        let low_y: Single = extent.min_y.difference(margin);
        let high_x: Single = extent.max_x.sum(margin);
        let high_y: Single = extent.max_y.sum(margin);
        ExecutorView {
            grid_origin: Pose {
                position: Point {
                    x: Double::widened(low_x),
                    y: Double::widened(low_y),
                    ..self.grid_origin.position
                },
                orientation: Quaternion {
                    w: Double { bits: DOUBLE_ONE },
                    ..self.grid_origin.orientation
                },
            },
            grid_width: high_x.difference(low_x).quotient(self.grid_resolution).ceil_index(
                u32::MAX as int,
            ) as u32,
            grid_height: high_y.difference(low_y).quotient(self.grid_resolution).ceil_index(
                u32::MAX as int,
            ) as u32,
            ..self
        }
    }

    /// A position in the coordinates of the grid.
    pub open spec fn on_grid(self, p: Position) -> Position {
        Position { x: p.x.difference(self.low_x()), y: p.y.difference(self.low_y()) }
    }
}

/// What the allocation of floor space needs to know of a robot, in the coordinates of the grid.
#[derive(Debug)]
pub struct AgentFootprint {
    pub trajectory: Vec<Position>,
    pub radius: Single,
    pub real_position: Position,
}

/// The footprint is that of the robot.
pub open spec fn footprint_of(state: ExecutorView, footprint: AgentFootprint, entry: Entry) -> bool {
    &&& footprint.trajectory@ == entry.state.plan->0.route().map_values(
        |p: Position| state.on_grid(p),
    )
    &&& footprint.radius == entry.state.radius
    &&& footprint.real_position == state.on_grid(entry.state.place()->0)
}

impl PlanExecutor {
    /// Where a robot is that has reported a position.
    pub(crate) fn odom_of(&self, agent: usize) -> (r: &Odometry)
        requires
            agent < self@.fleet.len(),
            self@.fleet[agent as int].state.latest_odom is Some,
        ensures
            self@.fleet[agent as int].state.latest_odom == Some(*r),
    {
        self.active_robots[agent].state.latest_odom.as_ref().unwrap()
    }

    /// The smallest rectangle around all robots and all waypoints.
    fn extent(&self) -> (r: Extent)
        requires
            all_ready(self@.fleet),
        ensures
            r == extent_of(occupied_positions(self@.fleet, self@.fleet.len())),
    {
        let mut extent: Extent = Extent {
            min_x: Single { bits: LARGEST },
            min_y: Single { bits: LARGEST },
            max_x: Single { bits: SMALLEST },
            max_y: Single { bits: SMALLEST },
        };
        let ghost fleet: Seq<Entry> = self@.fleet;
        let mut i: usize = 0;
        while i < self.active_robots.len()
            invariant
                i <= self.active_robots@.len(),
                fleet == self@.fleet,
                all_ready(fleet),
                extent == extent_of(occupied_positions(fleet, i as nat)),
            decreases self.active_robots@.len() - i,
        {
            assert(fleet[i as int].state.ready());
            let odom: &Odometry = self.odom_of(i);
            let plan: &Plan = self.plan_of(i);
            let ghost start: Seq<Position> = occupied_positions(fleet, i as nat).push(odom.place());
            extent = extent.include_position(odom.position());
            assert(start.drop_last() =~= occupied_positions(fleet, i as nat));
            assert(start + plan@.route().take(0) =~= start);
            let mut j: usize = 0;
            while j < plan.waypoints.len()
                invariant
                    j <= plan.waypoints@.len(),
                    extent == extent_of(start + plan@.route().take(j as int)),
                decreases plan.waypoints@.len() - j,
            {
                extent = extent.include_position(plan.waypoints[j].position);
                proof {
                    let longer: Seq<Position> = start + plan@.route().take(j + 1);
                    assert(longer.drop_last() =~= start + plan@.route().take(j as int));
                    assert(longer.last() == plan@.route()[j as int]);
                }
                j = j + 1;
            }
            assert(plan@.route().take(j as int) =~= plan@.route());
            i = i + 1;
        }
        extent
    }

    /// Whether a rectangle reaches beyond the grid.
    fn is_outgrown_by(&self, extent: Extent) -> (r: bool)
        ensures
            r == self@.outgrown_by(extent),
    {
        let low_x: Single = self.grid_origin.position.x.to_single();
        let low_y: Single = self.grid_origin.position.y.to_single();
        let high_x: Single = low_x.plus(
            Single::from_integer(self.grid_width).times(self.grid_resolution),
        );
        let high_y: Single = low_y.plus(
            Single::from_integer(self.grid_height).times(self.grid_resolution),
        );
        extent.min_x.less_than(low_x) || extent.min_y.less_than(low_y) || high_x.less_than(
            extent.max_x,
        ) || high_y.less_than(extent.max_y)
    }

    /// Lays the grid anew around a rectangle.
    fn lay_around(&mut self, extent: Extent)
        requires
            old(self).wf(),
        ensures
            final(self).wf(),
            final(self)@ == old(self)@.laid_around(extent),
    {
        let margin: Single = Single { bits: MARGIN };
        let new_min_x: Single = extent.min_x.minus(margin);
        let new_min_y: Single = extent.min_y.minus(margin);
        let new_max_x: Single = extent.max_x.plus(margin);
        let new_max_y: Single = extent.max_y.plus(margin);
        let width: u32 = new_max_x.minus(new_min_x).over(self.grid_resolution).ceil_to_u32();
        let height: u32 = new_max_y.minus(new_min_y).over(self.grid_resolution).ceil_to_u32();
        self.grid_origin.position.x = Double::from_single(new_min_x);
        self.grid_origin.position.y = Double::from_single(new_min_y);
        self.grid_origin.orientation.w = Double { bits: DOUBLE_ONE };
        self.grid_width = width;
        self.grid_height = height;
    }

    /// Lays the grid anew where a robot or a waypoint is not on it. Says whether it did.
    pub fn fit_grid(&mut self) -> (r: bool)
        requires
            old(self).wf(),
            all_ready(old(self)@.fleet),
        ensures
            final(self).wf(),
            r == old(self)@.outgrown_by(
                extent_of(occupied_positions(old(self)@.fleet, old(self)@.fleet.len())),
            ),
            final(self)@ == if r {
                old(self)@.laid_around(
                    extent_of(occupied_positions(old(self)@.fleet, old(self)@.fleet.len())),
                )
            } else {
                old(self)@
            },
    {
        let extent: Extent = self.extent();
        if self.is_outgrown_by(extent) {
            self.lay_around(extent);
            true
        } else {
            false
        }
    }

    /// A position in the coordinates of the grid.
    fn to_grid(&self, p: Position) -> (r: Position)
        ensures
            r == self@.on_grid(p),
    {
        Position {
            x: p.x.minus(self.grid_origin.position.x.to_single()),
            y: p.y.minus(self.grid_origin.position.y.to_single()),
        }
    }

    /// What the allocation of floor space needs to know of the robots, in their order.
    pub fn footprints(&self) -> (r: Vec<AgentFootprint>)
        requires
            all_ready(self@.fleet),
        ensures
            r@.len() == self@.fleet.len(),
            forall|i: int|
                0 <= i < r@.len() ==> footprint_of(self@, #[trigger] r@[i], self@.fleet[i]),
    {
        let mut out: Vec<AgentFootprint> = Vec::new();
        let mut i: usize = 0;
        while i < self.active_robots.len()
            invariant
                i <= self.active_robots@.len(),
                all_ready(self@.fleet),
                out@.len() == i,
                forall|k: int|
                    0 <= k < i ==> footprint_of(self@, #[trigger] out@[k], self@.fleet[k]),
            decreases self.active_robots@.len() - i,
        {
            assert(self@.fleet[i as int].state.ready());
            let odom: &Odometry = self.odom_of(i);
            let plan: &Plan = self.plan_of(i);
            let mut trajectory: Vec<Position> = Vec::new();
            let mut j: usize = 0;
            while j < plan.waypoints.len()
                invariant
                    j <= plan.waypoints@.len(),
                    trajectory@.len() == j,
                    forall|k: int|
                        0 <= k < j ==> #[trigger] trajectory@[k] == self@.on_grid(
                            plan@.route()[k],
                        ),
                decreases plan.waypoints@.len() - j,
            {
                trajectory.push(self.to_grid(plan.waypoints[j].position));
                j = j + 1;
            }
            assert(trajectory@ =~= plan@.route().map_values(|p: Position| self@.on_grid(p)));
            out.push(
                AgentFootprint {
                    trajectory,
                    radius: self.active_robots[i].state.radius,
                    real_position: self.to_grid(odom.position()),
                },
            );
            i = i + 1;
        }
        out
    }
}

} // verus!
