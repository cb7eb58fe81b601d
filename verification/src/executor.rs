//! The plan executor: how far each robot may go on its plan, and which part of the floor is its
//! own on the way.

use crate::double::Double;
use crate::messages::{Odometry, Plan, PlanView, Point, Pose, Position, Quaternion};
use crate::names::{
    lemma_name_asymmetric, lemma_name_irreflexive, lemma_name_total, lemma_name_transitive, name_before,
    place, Place,
};
use crate::roster::NameSet;
use crate::single::Single;
use vstd::prelude::*;

verus! {

/// 1 in double precision.
pub const DOUBLE_ONE: u64 = 0x3ff0_0000_0000_0000;

/// 1 in single precision.
pub const SINGLE_ONE: u32 = 0x3f80_0000;

/// Tracks how far a robot has come: which agent it is, the way it is on, and the position that
/// was last reported to the tracker. How far a tracker takes the robot to be depends on all that
/// it was told since it was set up.
pub struct WaypointFollower {
    pub agent: usize,
    pub trajectory: Vec<Position>,
    pub estimate: Option<Position>,
    /// What the tracker was told since it was set up.
    pub reports: Ghost<Seq<Position>>,
}

/// What a tracker holds.
pub struct FollowerView {
    pub agent: int,
    pub trajectory: Seq<Position>,
    pub estimate: Option<Position>,
    pub reports: Seq<Position>,
}

impl FollowerView {
    /// A tracker that was just set up, and told the position of the robot if that is known.
    pub open spec fn fresh(
        agent: int,
        trajectory: Seq<Position>,
        place: Option<Position>,
    ) -> FollowerView {
        FollowerView {
            agent,
            trajectory,
            estimate: place,
            reports: match place {
                Some(p) => seq![p],
                None => Seq::empty(),
            },
        }
    }

    /// The tracker, and one more report.
    pub open spec fn told(self, p: Position) -> FollowerView {
        FollowerView { estimate: Some(p), reports: self.reports.push(p), ..self }
    }

    /// The last report is at hand.
    pub open spec fn up_to_date(self) -> bool {
        self.estimate == if self.reports.len() == 0 {
            None
        } else {
            Some(self.reports.last())
        }
    }
}

impl View for WaypointFollower {
    type V = FollowerView;

    open spec fn view(&self) -> FollowerView {
        FollowerView {
            agent: self.agent as int,
            trajectory: self.trajectory@,
            estimate: self.estimate,
            reports: self.reports@,
        }
    }
}

/// What is known of a robot.
pub struct RobotState {
    pub radius: Single,
    pub latest_odom: Option<Odometry>,
    pub plan: Option<Plan>,
    pub waypoint_follower: Option<WaypointFollower>,
    pub safe_zone_version: u64,
    pub last_incremental_target_wp: Option<usize>,
}

/// What the state of a robot holds.
pub struct RobotView {
    pub radius: Single,
    pub latest_odom: Option<Odometry>,
    pub plan: Option<PlanView>,
    pub waypoint_follower: Option<FollowerView>,
    pub safe_zone_version: u64,
    pub last_incremental_target_wp: Option<usize>,
}

impl View for RobotState {
    type V = RobotView;

    open spec fn view(&self) -> RobotView {
        RobotView {
            radius: self.radius,
            latest_odom: self.latest_odom,
            plan: match self.plan {
                Some(plan) => Some(plan@),
                None => None,
            },
            waypoint_follower: match self.waypoint_follower {
                Some(follower) => Some(follower@),
                None => None,
            },
            safe_zone_version: self.safe_zone_version,
            last_incremental_target_wp: self.last_incremental_target_wp,
        }
    }
}

impl RobotView {
    /// A robot of which only the radius is known.
    pub open spec fn fresh(radius: Single) -> RobotView {
        RobotView {
            radius,
            latest_odom: None,
            plan: None,
            waypoint_follower: None,
            safe_zone_version: 0,
            last_incremental_target_wp: None,
        }
    }

    /// The position of the robot.
    pub open spec fn place(self) -> Option<Position> {
        match self.latest_odom {
            Some(odom) => Some(odom.place()),
            None => None,
        }
    }

    /// The robot has a plan, a position and a tracker.
    pub open spec fn ready(self) -> bool {
        self.plan is Some && self.latest_odom is Some && self.waypoint_follower is Some
    }

    /// The tracker is set up anew for the agent number `agent`.
    pub open spec fn tracked_as(self, agent: int) -> RobotView {
        match self.plan {
            Some(plan) => RobotView {
                waypoint_follower: Some(FollowerView::fresh(agent, plan.route(), self.place())),
                ..self
            },
            None => self,
        }
    }
}

/// A robot that takes part.
pub struct Robot {
    pub name: String,
    pub state: RobotState,
}

/// What a robot's entry holds.
pub struct Entry {
    pub name: Seq<char>,
    pub state: RobotView,
}

impl View for Robot {
    type V = Entry;

    open spec fn view(&self) -> Entry {
        Entry { name: self.name@, state: self.state@ }
    }
}

/// What the entries of the robots hold.
pub open spec fn entries(robots: Seq<Robot>) -> Seq<Entry> {
    Seq::new(robots.len(), |i: int| robots[i]@)
}

/// The robots are in the order of their names, and no name occurs twice.
pub open spec fn ordered(fleet: Seq<Entry>) -> bool {
    forall|i: int, j: int|
        0 <= i < j < fleet.len() ==> name_before((#[trigger] fleet[i]).name, (
        #[trigger] fleet[j]).name)
}

/// Each tracker follows the plan of its robot, as the agent that the robot is by its place in
/// the order, and was told the latest position; and there is a tracker for each plan.
pub open spec fn indexed(fleet: Seq<Entry>) -> bool {
    forall|i: int|
        0 <= i < fleet.len() ==> match (#[trigger] fleet[i]).state.plan {
            Some(plan) => fleet[i].state.waypoint_follower matches Some(follower) && follower.agent
                == i && follower.trajectory == plan.route() && follower.estimate
                == fleet[i].state.place() && follower.up_to_date(),
            None => fleet[i].state.waypoint_follower is None,
        }
}

/// The robot with the given name stands at the place `i`.
pub open spec fn stands_at(fleet: Seq<Entry>, name: Seq<char>, i: int) -> bool {
    0 <= i < fleet.len() && (#[trigger] fleet[i]).name == name
}

/// The robot with the given name takes part.
pub open spec fn takes_part(fleet: Seq<Entry>, name: Seq<char>) -> bool {
    exists|i: int| stands_at(fleet, name, i)
}

/// How many robots come before a name.
pub open spec fn count_before(fleet: Seq<Entry>, name: Seq<char>) -> nat
    decreases fleet.len(),
{
    if fleet.len() == 0 {
        0
    } else {
        count_before(fleet.drop_last(), name) + if name_before(fleet.last().name, name) {
            1nat
        } else {
            0nat
        }
    }
}

/// All trackers are set up anew, each robot being the agent of its place in the order.
pub open spec fn reindexed(fleet: Seq<Entry>) -> Seq<Entry> {
    Seq::new(
        fleet.len(),
        |i: int| Entry { name: fleet[i].name, state: fleet[i].state.tracked_as(i) },
    )
}

/// Every robot is ready, and there is at least one.
pub open spec fn all_ready(fleet: Seq<Entry>) -> bool {
    fleet.len() > 0 && forall|i: int| 0 <= i < fleet.len() ==> (#[trigger] fleet[i]).state.ready()
}

/// The state of the plan executor.
pub struct ExecutorView {
    pub fleet: Seq<Entry>,
    pub grid_width: u32,
    pub grid_height: u32,
    pub grid_resolution: Single,
    pub grid_origin: Pose,
    /// The robots to which releases are sent.
    pub release_publishers: Set<Seq<char>>,
    /// The robots to which safe zones are sent.
    pub zone_publishers: Set<Seq<char>>,
}

impl ExecutorView {
    /// The robots are in order, the trackers follow the plans, and nothing is sent to a robot
    /// that does not take part.
    pub open spec fn in_order(self) -> bool {
        &&& ordered(self.fleet)
        &&& indexed(self.fleet)
        &&& forall|name: Seq<char>| #[trigger]
            self.release_publishers.contains(name) ==> takes_part(self.fleet, name)
        &&& forall|name: Seq<char>| #[trigger]
            self.zone_publishers.contains(name) ==> takes_part(self.fleet, name)
    }

    /// A robot joins, unless it takes part already.
    pub open spec fn joined(self, name: Seq<char>, radius: Single) -> ExecutorView {
        if takes_part(self.fleet, name) {
            self
        } else {
            ExecutorView {
                fleet: reindexed(
                    self.fleet.insert(
                        count_before(self.fleet, name) as int,
                        Entry { name, state: RobotView::fresh(radius) },
                    ),
                ),
                ..self
            }
        }
    }

    /// A robot leaves, and nothing is sent to it any more.
    pub open spec fn parted(self, name: Seq<char>) -> ExecutorView {
        if takes_part(self.fleet, name) {
            ExecutorView {
                fleet: reindexed(self.fleet.remove(count_before(self.fleet, name) as int)),
                release_publishers: self.release_publishers.remove(name),
                zone_publishers: self.zone_publishers.remove(name),
                ..self
            }
        } else {
            self
        }
    }

    /// A robot gets a plan.
    pub open spec fn planned(self, name: Seq<char>, plan: PlanView) -> ExecutorView {
        if takes_part(self.fleet, name) {
            let i: int = count_before(self.fleet, name) as int;
            ExecutorView {
                fleet: reindexed(
                    self.fleet.update(
                        i,
                        Entry {
                            name,
                            state: RobotView {
                                plan: Some(plan),
                                safe_zone_version: 0,
                                last_incremental_target_wp: None,
                                ..self.fleet[i].state
                            },
                        },
                    ),
                ),
                ..self
            }
        } else {
            self
        }
    }

    /// A robot reports its position, and its tracker is told.
    pub open spec fn reported(self, name: Seq<char>, odom: Odometry) -> ExecutorView {
        if takes_part(self.fleet, name) {
            let i: int = count_before(self.fleet, name) as int;
            let state: RobotView = self.fleet[i].state;
            ExecutorView {
                fleet: self.fleet.update(
                    i,
                    Entry {
                        name,
                        state: RobotView {
                            latest_odom: Some(odom),
                            waypoint_follower: match state.waypoint_follower {
                                Some(follower) => Some(follower.told(odom.place())),
                                None => None,
                            },
                            ..state
                        },
                    },
                ),
                ..self
            }
        } else {
            self
        }
    }

    /// A robot gets one safe zone more.
    pub open spec fn zoned(self, agent: int) -> ExecutorView {
        ExecutorView {
            fleet: self.fleet.update(
                agent,
                Entry {
                    name: self.fleet[agent].name,
                    state: RobotView {
                        safe_zone_version: (self.fleet[agent].state.safe_zone_version + 1) as u64,
                        ..self.fleet[agent].state
                    },
                },
            ),
            ..self
        }
    }
}

/// The plan executor.
pub struct PlanExecutor {
    /// The robots that take part, in the order of their names.
    pub active_robots: Vec<Robot>,
    /// The number of columns of the floor grid.
    pub grid_width: u32,
    /// The number of rows of the floor grid.
    pub grid_height: u32,
    /// The size of a cell of the floor grid.
    pub grid_resolution: Single,
    /// Where the floor grid lies.
    pub grid_origin: Pose,
    /// The robots to which releases are sent.
    pub plan_release_publishers: NameSet,
    /// The robots to which safe zones are sent.
    pub safezone_publishers: NameSet,
}

impl View for PlanExecutor {
    type V = ExecutorView;

    open spec fn view(&self) -> ExecutorView {
        ExecutorView {
            fleet: entries(self.active_robots@),
            grid_width: self.grid_width,
            grid_height: self.grid_height,
            grid_resolution: self.grid_resolution,
            grid_origin: self.grid_origin,
            release_publishers: self.plan_release_publishers@,
            zone_publishers: self.safezone_publishers@,
        }
    }
}

/// What is to be done about a reported position.
#[derive(Clone, Copy, Debug, PartialEq)]
pub enum OdometryStep {
    /// The robot does not take part.
    Ignore,
    /// Nothing yet, but for telling the robot's tracker the position, where it has one.
    Wait(Option<Position>),
    /// Tell the robot's tracker the position; then release and allocate.
    Execute(Position),
}

/// A place that splits an ordered fleet in what comes before a name and what does not.
proof fn lemma_count_before(fleet: Seq<Entry>, name: Seq<char>, p: int)
    requires
        0 <= p <= fleet.len(),
        forall|j: int| 0 <= j < p ==> name_before((#[trigger] fleet[j]).name, name),
        forall|j: int| p <= j < fleet.len() ==> !name_before((#[trigger] fleet[j]).name, name),
    ensures
        count_before(fleet, name) == p,
    decreases fleet.len(),
{
    if fleet.len() > 0 {
        if p == fleet.len() {
            lemma_count_before(fleet.drop_last(), name, p - 1);
        } else {
            lemma_count_before(fleet.drop_last(), name, p);
        }
    }
}

/// In an ordered fleet a robot stands behind those that come before it.
pub proof fn lemma_place_is_count(fleet: Seq<Entry>, name: Seq<char>, i: int)
    requires
        ordered(fleet),
        stands_at(fleet, name, i),
    ensures
        count_before(fleet, name) == i,
{
    assert forall|j: int| 0 <= j < i implies name_before((#[trigger] fleet[j]).name, name) by {
        assert(name_before(fleet[j].name, fleet[i].name));
    }
    assert forall|j: int| i <= j < fleet.len() implies !name_before(
        (#[trigger] fleet[j]).name,
        name,
    ) by {
        lemma_name_irreflexive(name);
        if j > i {
            lemma_name_asymmetric(fleet[i].name, fleet[j].name);
        }
    }
    lemma_count_before(fleet, name, i);
}

/// An ordered fleet stays ordered with one more robot at the right place.
proof fn lemma_insert_ordered(fleet: Seq<Entry>, entry: Entry, p: int)
    requires
        ordered(fleet),
        0 <= p <= fleet.len(),
        forall|j: int| 0 <= j < p ==> name_before((#[trigger] fleet[j]).name, entry.name),
        forall|j: int| p <= j < fleet.len() ==> name_before(entry.name, (#[trigger] fleet[j]).name),
    ensures
        ordered(fleet.insert(p, entry)),
{
    let grown: Seq<Entry> = fleet.insert(p, entry);
    assert forall|i: int, j: int| 0 <= i < j < grown.len() implies name_before(
        (#[trigger] grown[i]).name,
        (#[trigger] grown[j]).name,
    ) by {
        let a: int = if i < p { i } else { i - 1 };
        let b: int = if j < p { j } else { j - 1 };
        if i != p {
            assert(grown[i] == fleet[a]);
        }
        if j != p {
            assert(grown[j] == fleet[b]);
        }
    }
}

/// A fleet of which all trackers were set up anew is indexed, in the same order.
proof fn lemma_reindexed(fleet: Seq<Entry>)
    requires
        ordered(fleet),
        forall|i: int|
            0 <= i < fleet.len() ==> ((#[trigger] fleet[i]).state.plan is None
                ==> fleet[i].state.waypoint_follower is None),
    ensures
        ordered(reindexed(fleet)),
        indexed(reindexed(fleet)),
{
    let after: Seq<Entry> = reindexed(fleet);
    assert forall|i: int, j: int| 0 <= i < j < after.len() implies name_before(
        (#[trigger] after[i]).name,
        (#[trigger] after[j]).name,
    ) by {
        assert(name_before(fleet[i].name, fleet[j].name));
    }
}

impl PlanExecutor {
    /// The state is in order, and so are the sets of names in it.
    pub open spec fn wf(&self) -> bool {
        &&& self@.in_order()
        &&& self.plan_release_publishers.wf()
        &&& self.safezone_publishers.wf()
    }

    /// An executor without robots, on a floor of 20 by 20 cells of size one.
    pub fn new() -> (r: Self)
        ensures
            r.wf(),
            r@ == (ExecutorView {
                fleet: Seq::empty(),
                grid_width: 20,
                grid_height: 20,
                grid_resolution: Single { bits: SINGLE_ONE },
                grid_origin: Pose {
                    position: Point {
                        x: Double { bits: 0 },
                        y: Double { bits: 0 },
                        z: Double { bits: 0 },
                    },
                    orientation: Quaternion {
                        x: Double { bits: 0 },
                        y: Double { bits: 0 },
                        z: Double { bits: 0 },
                        w: Double { bits: DOUBLE_ONE },
                    },
                },
                release_publishers: Set::empty(),
                zone_publishers: Set::empty(),
            }),
    {
        let zero: Double = Double { bits: 0 };
        let r: PlanExecutor = PlanExecutor {
            active_robots: Vec::new(),
            grid_width: 20,
            grid_height: 20,
            grid_resolution: Single { bits: SINGLE_ONE },
            grid_origin: Pose {
                position: Point { x: zero, y: zero, z: zero },
                orientation: Quaternion {
                    x: zero,
                    y: zero,
                    z: zero,
                    w: Double { bits: DOUBLE_ONE },
                },
            },
            plan_release_publishers: NameSet::new(),
            safezone_publishers: NameSet::new(),
        };
        assert(r@.fleet =~= Seq::<Entry>::empty());
        r
    }

    /// Finds the place of a name: where the robot stands, or else where it would be put.
    pub(crate) fn find(&self, robot_id: &str) -> (r: (bool, usize))
        requires
            ordered(self@.fleet),
        ensures
            r.1 <= self@.fleet.len(),
            r.0 == takes_part(self@.fleet, robot_id@),
            r.0 ==> stands_at(self@.fleet, robot_id@, r.1 as int),
            r.1 == count_before(self@.fleet, robot_id@),
            forall|j: int|
                0 <= j < r.1 ==> name_before((#[trigger] self@.fleet[j]).name, robot_id@),
            !r.0 ==> forall|j: int|
                r.1 <= j < self@.fleet.len() ==> name_before(
                    robot_id@,
                    (#[trigger] self@.fleet[j]).name,
                ),
    {
        let ghost fleet: Seq<Entry> = self@.fleet;
        let mut i: usize = 0;
        while i < self.active_robots.len()
            invariant
                i <= self.active_robots.len(),
                fleet == self@.fleet,
                ordered(fleet),
                forall|j: int| 0 <= j < i ==> name_before((#[trigger] fleet[j]).name, robot_id@),
            decreases self.active_robots.len() - i,
        {
            assert(fleet[i as int] == self.active_robots@[i as int]@);
            match place(self.active_robots[i].name.as_str(), robot_id) {
                Place::Before => {},
                Place::Same => {
                    proof {
                        lemma_name_irreflexive(robot_id@);
                        assert(stands_at(fleet, robot_id@, i as int));
                        assert forall|j: int| i <= j < fleet.len() implies !name_before(
                            (#[trigger] fleet[j]).name,
                            robot_id@,
                        ) by {
                            if j > i {
                                lemma_name_asymmetric(fleet[i as int].name, fleet[j].name);
                            }
                        }
                        lemma_count_before(fleet, robot_id@, i as int);
                    }
                    return (true, i);
                },
                Place::After => {
                    proof {
                        assert forall|j: int| i <= j < fleet.len() implies name_before(
                            robot_id@,
                            (#[trigger] fleet[j]).name,
                        ) && !name_before(fleet[j].name, robot_id@) by {
                            if j > i {
                                lemma_name_transitive(
                                    robot_id@,
                                    fleet[i as int].name,
                                    fleet[j].name,
                                );
                            }
                            lemma_name_asymmetric(robot_id@, fleet[j].name);
                        }
                        lemma_count_before(fleet, robot_id@, i as int);
                        assert forall|j: int| !stands_at(fleet, robot_id@, j) by {
                            if stands_at(fleet, robot_id@, j) {
                                lemma_name_irreflexive(robot_id@);
                                if j < i {
                                    assert(name_before(fleet[j].name, robot_id@));
                                }
                            }
                        }
                    }
                    return (false, i);
                },
            }
            i = i + 1;
        }
        proof {
            lemma_count_before(fleet, robot_id@, i as int);
            assert forall|j: int| !stands_at(fleet, robot_id@, j) by {
                if stands_at(fleet, robot_id@, j) {
                    lemma_name_irreflexive(robot_id@);
                    assert(name_before(fleet[j].name, robot_id@));
                }
            }
        }
        (false, i)
    }

    /// Which agent a robot is: its place in the order of names.
    pub fn get_agent_index(&self, robot_id: &str) -> (r: Option<usize>)
        requires
            self.wf(),
        ensures
            match r {
                Some(i) => stands_at(self@.fleet, robot_id@, i as int) && i == count_before(
                    self@.fleet,
                    robot_id@,
                ),
                None => !takes_part(self@.fleet, robot_id@),
            },
    {
        let (found, i) = self.find(robot_id);
        if found {
            Some(i)
        } else {
            None
        }
    }

    /// The positions of the waypoints of a plan.
    fn route(plan: &Plan) -> (r: Vec<Position>)
        ensures
            r@ == plan@.route(),
    {
        let mut poses: Vec<Position> = Vec::new();
        let mut i: usize = 0;
        while i < plan.waypoints.len()
            invariant
                i <= plan.waypoints.len(),
                poses@.len() == i,
                forall|j: int| 0 <= j < i ==> poses@[j] == plan@.waypoints[j].position,
            decreases plan.waypoints.len() - i,
        {
            poses.push(plan.waypoints[i].position);
            i = i + 1;
        }
        assert(poses@ =~= plan@.route());
        poses
    }

    /// Sets all trackers up anew.
    fn reindex_followers(&mut self)
        ensures
            final(self).plan_release_publishers == old(self).plan_release_publishers,
            final(self).safezone_publishers == old(self).safezone_publishers,
            final(self)@ == (ExecutorView { fleet: reindexed(old(self)@.fleet), ..old(self)@ }),
    {
        let ghost before: Seq<Entry> = self@.fleet;
        let mut i: usize = 0;
        while i < self.active_robots.len()
            invariant
                i <= self.active_robots@.len(),
                before == old(self)@.fleet,
                self@.fleet.len() == before.len(),
                forall|j: int|
                    0 <= j < before.len() ==> #[trigger] self.active_robots@[j]@ == if j < i {
                        reindexed(before)[j]
                    } else {
                        before[j]
                    },
                self@ == (ExecutorView { fleet: self@.fleet, ..old(self)@ }),
                self.plan_release_publishers == old(self).plan_release_publishers,
                self.safezone_publishers == old(self).safezone_publishers,
            decreases self.active_robots@.len() - i,
        {
            let follower: Option<WaypointFollower> = match &self.active_robots[i].state.plan {
                Some(plan) => {
                    let estimate: Option<Position> = match &self.active_robots[i].state.latest_odom {
                        Some(odom) => Some(odom.position()),
                        None => None,
                    };
                    let ghost reports: Seq<Position> = match estimate {
                        Some(p) => seq![p],
                        None => Seq::empty(),
                    };
                    Some(
                        WaypointFollower {
                            agent: i,
                            trajectory: PlanExecutor::route(plan),
                            estimate,
                            reports: Ghost(reports),
                        },
                    )
                },
                None => None,
            };
            let ghost previous: Seq<Robot> = self.active_robots@;
            assert(previous[i as int]@ == before[i as int]);
            if follower.is_some() {
                self.active_robots[i].state.waypoint_follower = follower;
            }
            proof {
                assert forall|j: int| 0 <= j < before.len() implies #[trigger] self.active_robots@[j]@
                    == if j < i + 1 {
                    reindexed(before)[j]
                } else {
                    before[j]
                } by {
                    if j != i {
                        assert(self.active_robots@[j] == previous[j]);
                    }
                }
            }
            i = i + 1;
        }
        proof {
            assert(self@.fleet =~= reindexed(before));
        }
    }

    /// A robot joins. Says whether it is new; if so, all trackers were set up anew.
    pub fn handle_robot_added(&mut self, robot_id: &str, radius: Single) -> (r: bool)
        requires
            old(self).wf(),
        ensures
            final(self).wf(),
            r == !takes_part(old(self)@.fleet, robot_id@),
            final(self)@ == old(self)@.joined(robot_id@, radius),
    {
        let (found, p) = self.find(robot_id);
        if found {
            return false;
        }
        let robot: Robot = Robot {
            name: robot_id.to_owned(),
            state: RobotState {
                radius,
                latest_odom: None,
                plan: None,
                waypoint_follower: None,
                safe_zone_version: 0,
                last_incremental_target_wp: None,
            },
        };
        let ghost entry: Entry = robot@;
        self.active_robots.insert(p, robot);
        proof {
            assert(self@.fleet =~= old(self)@.fleet.insert(p as int, entry));
            lemma_joined(old(self)@, robot_id@, radius);
        }
        self.reindex_followers();
        true
    }

    /// A robot leaves. Says whether it took part; if so, all trackers were set up anew.
    pub fn handle_robot_removed(&mut self, robot_id: &str) -> (r: bool)
        requires
            old(self).wf(),
        ensures
            final(self).wf(),
            r == takes_part(old(self)@.fleet, robot_id@),
            final(self)@ == old(self)@.parted(robot_id@),
    {
        let (found, p) = self.find(robot_id);
        if !found {
            return false;
        }
        let _ = self.active_robots.remove(p);
        let _ = self.plan_release_publishers.remove(robot_id);
        let _ = self.safezone_publishers.remove(robot_id);
        proof {
            assert(self@.fleet =~= old(self)@.fleet.remove(p as int));
            lemma_parted(old(self)@, robot_id@);
        }
        self.reindex_followers();
        true
    }

    /// A robot gets a new plan. Says whether it takes part; if so, all trackers were set up
    /// anew.
    pub fn handle_plan(&mut self, robot_id: &str, msg: Plan) -> (r: bool)
        requires
            old(self).wf(),
        ensures
            final(self).wf(),
            r == takes_part(old(self)@.fleet, robot_id@),
            final(self)@ == old(self)@.planned(robot_id@, msg@),
    {
        let (found, p) = self.find(robot_id);
        if !found {
            return false;
        }
        let ghost before: Seq<Entry> = self@.fleet;
        let ghost robots: Seq<Robot> = self.active_robots@;
        let ghost plan: PlanView = msg@;
        self.active_robots[p].state.plan = Some(msg);
        self.active_robots[p].state.safe_zone_version = 0;
        self.active_robots[p].state.last_incremental_target_wp = None;
        proof {
            let entry: Entry = Entry {
                name: robot_id@,
                state: RobotView {
                    plan: Some(plan),
                    safe_zone_version: 0,
                    last_incremental_target_wp: None,
                    ..before[p as int].state
                },
            };
            assert forall|j: int| 0 <= j < robots.len() && j != p implies
                #[trigger] self.active_robots@[j] == robots[j] by {}
            assert(self@.fleet =~= before.update(p as int, entry));
            lemma_planned(old(self)@, robot_id@, plan);
        }
        self.reindex_followers();
        true
    }

    /// Enters that releases are sent to a robot. Says whether this is new, so that the means to
    /// send them have to be set up.
    pub fn enter_release_publisher(&mut self, agent: usize) -> (r: bool)
        requires
            old(self).wf(),
            agent < old(self)@.fleet.len(),
        ensures
            final(self).wf(),
            r == !old(self)@.release_publishers.contains(old(self)@.fleet[agent as int].name),
            final(self)@ == (ExecutorView {
                release_publishers: old(self)@.release_publishers.insert(
                    old(self)@.fleet[agent as int].name,
                ),
                ..old(self)@
            }),
    {
        assert(stands_at(self@.fleet, self@.fleet[agent as int].name, agent as int));
        self.plan_release_publishers.insert(self.active_robots[agent].name.as_str())
    }

    /// Enters that safe zones are sent to a robot. Says whether this is new, so that the means to
    /// send them have to be set up.
    pub fn enter_zone_publisher(&mut self, agent: usize) -> (r: bool)
        requires
            old(self).wf(),
            agent < old(self)@.fleet.len(),
        ensures
            final(self).wf(),
            r == !old(self)@.zone_publishers.contains(old(self)@.fleet[agent as int].name),
            final(self)@ == (ExecutorView {
                zone_publishers: old(self)@.zone_publishers.insert(
                    old(self)@.fleet[agent as int].name,
                ),
                ..old(self)@
            }),
    {
        assert(stands_at(self@.fleet, self@.fleet[agent as int].name, agent as int));
        self.safezone_publishers.insert(self.active_robots[agent].name.as_str())
    }

    /// Whether every robot has a plan, a position and a tracker, and there is at least one.
    pub fn ready_to_execute(&self) -> (r: bool)
        ensures
            r == all_ready(self@.fleet),
    {
        if self.active_robots.len() == 0 {
            return false;
        }
        let mut i: usize = 0;
        while i < self.active_robots.len()
            invariant
                i <= self.active_robots.len(),
                forall|j: int| 0 <= j < i ==> (#[trigger] self@.fleet[j]).state.ready(),
            decreases self.active_robots.len() - i,
        {
            let state: &RobotState = &self.active_robots[i].state;
            if state.plan.is_none() || state.latest_odom.is_none()
                || state.waypoint_follower.is_none() {
                assert(!self@.fleet[i as int].state.ready());
                return false;
            }
            i = i + 1;
        }
        true
    }

    /// A robot reports its position.
    pub fn handle_odometry(&mut self, robot_id: &str, msg: Odometry) -> (r: OdometryStep)
        requires
            old(self).wf(),
        ensures
            final(self).wf(),
            final(self)@ == old(self)@.reported(robot_id@, msg),
            r == if !takes_part(old(self)@.fleet, robot_id@) {
                OdometryStep::Ignore
            } else if all_ready(final(self)@.fleet) {
                OdometryStep::Execute(msg.place())
            } else if old(self)@.fleet[count_before(
                old(self)@.fleet,
                robot_id@,
            ) as int].state.waypoint_follower is Some {
                OdometryStep::Wait(Some(msg.place()))
            } else {
                OdometryStep::Wait(None)
            },
    {
        let (found, p) = self.find(robot_id);
        if !found {
            return OdometryStep::Ignore;
        }
        let position: Position = msg.position();
        let ghost before: Seq<Entry> = self@.fleet;
        let ghost robots: Seq<Robot> = self.active_robots@;
        self.active_robots[p].state.latest_odom = Some(msg);
        let has_follower: bool = match &mut self.active_robots[p].state.waypoint_follower {
            Some(follower) => {
                follower.estimate = Some(position);
                follower.reports = Ghost(follower.reports@.push(position));
                true
            },
            None => false,
        };
        proof {
            assert(before[p as int] == robots[p as int]@);
            assert forall|j: int| 0 <= j < robots.len() && j != p implies
                #[trigger] self.active_robots@[j] == robots[j] by {}
            assert(self@.fleet =~= old(self)@.reported(robot_id@, msg).fleet);
            lemma_reported(old(self)@, robot_id@, msg);
        }
        if self.ready_to_execute() {
            OdometryStep::Execute(position)
        } else if has_follower {
            OdometryStep::Wait(Some(position))
        } else {
            OdometryStep::Wait(None)
        }
    }
}

/// Setting the trackers up a second time changes nothing more: the first time makes them forget
/// all but the latest position, and number the robots by their places.
pub proof fn law_reindexing_is_idempotent(fleet: Seq<Entry>)
    ensures
        reindexed(reindexed(fleet)) == reindexed(fleet),
{
    assert(reindexed(reindexed(fleet)) =~= reindexed(fleet));
}

/// The tracker of a robot follows it as the agent that the robot is among the others.
pub proof fn law_tracker_knows_its_agent(fleet: Seq<Entry>, name: Seq<char>, i: int)
    requires
        ordered(fleet),
        indexed(fleet),
        stands_at(fleet, name, i),
        fleet[i].state.plan is Some,
    ensures
        fleet[i].state.waypoint_follower matches Some(follower) && follower.agent == count_before(
            fleet,
            name,
        ),
{
    lemma_place_is_count(fleet, name, i);
}

/// A robot that joins and leaves again leaves nothing behind but trackers that start over: the
/// fleet is as it was before, with all trackers set up anew.
#[verifier::rlimit(50)]
pub proof fn law_join_then_leave(state: ExecutorView, name: Seq<char>, radius: Single)
    requires
        state.in_order(),
        !takes_part(state.fleet, name),
    ensures
        state.joined(name, radius).parted(name) == (ExecutorView {
            fleet: reindexed(state.fleet),
            ..state
        }),
{
    let fleet: Seq<Entry> = state.fleet;
    let joined: ExecutorView = state.joined(name, radius);
    let p: int = count_before(fleet, name) as int;
    let grown: Seq<Entry> = fleet.insert(
        p,
        Entry { name, state: RobotView::fresh(radius) },
    );
    lemma_count_splits(fleet, name);
    lemma_joined(state, name, radius);
    assert(stands_at(joined.fleet, name, p));
    lemma_place_is_count(joined.fleet, name, p);
    let back: ExecutorView = joined.parted(name);
    assert forall|i: int| 0 <= i < fleet.len() implies back.fleet[i] == reindexed(fleet)[i] by {
        if i < p {
            assert(grown[i] == fleet[i]);
        } else {
            assert(grown[i + 1] == fleet[i]);
        }
    }
    assert(back.fleet =~= reindexed(fleet));
    assert(back.release_publishers =~= state.release_publishers);
    assert(back.zone_publishers =~= state.zone_publishers);
}

/// The names of a fleet decide its order and who takes part in it.
pub proof fn lemma_same_names(a: Seq<Entry>, b: Seq<Entry>)
    requires
        a.len() == b.len(),
        forall|i: int| 0 <= i < a.len() ==> (#[trigger] a[i]).name == (#[trigger] b[i]).name,
    ensures
        ordered(a) ==> ordered(b),
        forall|name: Seq<char>| #[trigger] takes_part(a, name) ==> takes_part(b, name),
{
    if ordered(a) {
        assert forall|i: int, j: int| 0 <= i < j < b.len() implies name_before(
            (#[trigger] b[i]).name,
            (#[trigger] b[j]).name,
        ) by {
            assert(name_before(a[i].name, a[j].name));
        }
    }
    assert forall|name: Seq<char>| #[trigger] takes_part(a, name) implies takes_part(b, name) by {
        let i: int = choose|i: int| stands_at(a, name, i);
        assert(a[i].name == b[i].name);
        assert(stands_at(b, name, i));
    }
}

/// A state stays in order when a robot joins, and the robot then takes part.
#[verifier::rlimit(50)]
pub proof fn lemma_joined(state: ExecutorView, name: Seq<char>, radius: Single)
    requires
        state.in_order(),
    ensures
        state.joined(name, radius).in_order(),
        takes_part(state.joined(name, radius).fleet, name),
{
    let fleet: Seq<Entry> = state.fleet;
    if !takes_part(fleet, name) {
        let p: int = count_before(fleet, name) as int;
        let entry: Entry = Entry { name, state: RobotView::fresh(radius) };
        let grown: Seq<Entry> = fleet.insert(p, entry);
        lemma_count_splits(fleet, name);
        assert forall|j: int| p <= j < fleet.len() implies name_before(
            name,
            (#[trigger] fleet[j]).name,
        ) by {
            lemma_name_total(name, fleet[j].name);
            assert(!stands_at(fleet, name, j));
        }
        lemma_insert_ordered(fleet, entry, p);
        assert forall|i: int|
            0 <= i < grown.len() && (#[trigger] grown[i]).state.plan is None implies grown[i].state.waypoint_follower is None by {
            if i < p {
                assert(grown[i] == fleet[i]);
            } else if i > p {
                assert(grown[i] == fleet[i - 1]);
            }
        }
        lemma_reindexed(grown);
        assert(grown[p] == entry);
        assert(stands_at(reindexed(grown), name, p));
        assert forall|other: Seq<char>| #[trigger] takes_part(fleet, other) implies takes_part(
            reindexed(grown),
            other,
        ) by {
            let i: int = choose|i: int| stands_at(fleet, other, i);
            let j: int = if i < p {
                i
            } else {
                i + 1
            };
            assert(grown[j] == fleet[i]);
            assert(stands_at(reindexed(grown), other, j));
        }
    }
}

/// A state stays in order when a robot leaves, and the robot then takes no part.
#[verifier::rlimit(50)]
pub proof fn lemma_parted(state: ExecutorView, name: Seq<char>)
    requires
        state.in_order(),
    ensures
        state.parted(name).in_order(),
        !takes_part(state.parted(name).fleet, name),
{
    let fleet: Seq<Entry> = state.fleet;
    if takes_part(fleet, name) {
        let p: int = choose|p: int| stands_at(fleet, name, p);
        lemma_place_is_count(fleet, name, p);
        let left: Seq<Entry> = fleet.remove(p);
        assert forall|i: int| 0 <= i < left.len() implies #[trigger] left[i] == fleet[if i < p {
            i
        } else {
            i + 1
        }] by {}
        lemma_reindexed(left);
        let after: Seq<Entry> = reindexed(left);
        assert forall|other: Seq<char>| other != name && #[trigger] takes_part(
            fleet,
            other,
        ) implies takes_part(after, other) by {
            let i: int = choose|i: int| stands_at(fleet, other, i);
            let j: int = if i < p {
                i
            } else {
                i - 1
            };
            assert(left[j] == fleet[i]);
            assert(stands_at(after, other, j));
        }
        if takes_part(after, name) {
            let j: int = choose|j: int| stands_at(after, name, j);
            let i: int = if j < p {
                j
            } else {
                j + 1
            };
            assert(left[j] == fleet[i]);
            lemma_name_irreflexive(name);
            assert(name_before(fleet[i].name, fleet[p].name) || name_before(
                fleet[p].name,
                fleet[i].name,
            ));
        }
    }
}

/// A state stays in order when a robot gets a plan.
pub proof fn lemma_planned(state: ExecutorView, name: Seq<char>, plan: PlanView)
    requires
        state.in_order(),
    ensures
        state.planned(name, plan).in_order(),
{
    let fleet: Seq<Entry> = state.fleet;
    if takes_part(fleet, name) {
        let p: int = choose|p: int| stands_at(fleet, name, p);
        lemma_place_is_count(fleet, name, p);
        let entry: Entry = Entry {
            name,
            state: RobotView {
                plan: Some(plan),
                safe_zone_version: 0,
                last_incremental_target_wp: None,
                ..fleet[p].state
            },
        };
        let changed: Seq<Entry> = fleet.update(p, entry);
        lemma_same_names(fleet, changed);
        assert forall|i: int|
            0 <= i < changed.len() && (#[trigger] changed[i]).state.plan is None implies changed[i].state.waypoint_follower is None by {
            if i != p {
                assert(changed[i] == fleet[i]);
            }
        }
        lemma_reindexed(changed);
        lemma_same_names(changed, reindexed(changed));
    }
}

/// A state stays in order when a robot reports its position.
pub proof fn lemma_reported(state: ExecutorView, name: Seq<char>, odom: Odometry)
    requires
        state.in_order(),
    ensures
        state.reported(name, odom).in_order(),
{
    let fleet: Seq<Entry> = state.fleet;
    if takes_part(fleet, name) {
        let p: int = choose|p: int| stands_at(fleet, name, p);
        lemma_place_is_count(fleet, name, p);
        let after: Seq<Entry> = state.reported(name, odom).fleet;
        lemma_same_names(fleet, after);
    }
}

/// A state stays in order when a robot gets one safe zone more.
pub proof fn lemma_zoned(state: ExecutorView, agent: int)
    requires
        state.in_order(),
        0 <= agent < state.fleet.len(),
    ensures
        state.zoned(agent).in_order(),
{
    lemma_same_names(state.fleet, state.zoned(agent).fleet);
}

/// The robots that come before a name are the first ones of an ordered fleet.
proof fn lemma_count_splits(fleet: Seq<Entry>, name: Seq<char>)
    requires
        ordered(fleet),
    ensures
        count_before(fleet, name) <= fleet.len(),
        forall|j: int|
            0 <= j < count_before(fleet, name) ==> name_before((#[trigger] fleet[j]).name, name),
        forall|j: int|
            count_before(fleet, name) <= j < fleet.len() ==> !name_before(
                (#[trigger] fleet[j]).name,
                name,
            ),
    decreases fleet.len(),
{
    if fleet.len() > 0 {
        let rest: Seq<Entry> = fleet.drop_last();
        let last: int = fleet.len() - 1;
        lemma_count_splits(rest, name);
        assert(forall|j: int| 0 <= j < last ==> rest[j] == fleet[j]);
        if name_before(fleet.last().name, name) {
            assert forall|j: int| 0 <= j < last implies name_before(rest[j].name, name) by {
                assert(name_before(fleet[j].name, fleet[last].name));
                lemma_name_transitive(fleet[j].name, fleet[last].name, name);
            }
            assert(count_before(rest, name) == rest.len()) by {
                lemma_count_before(rest, name, last);
            }
        }
    }
}

/// Every robot is ready as soon as each has a plan and has reported a position.
pub proof fn law_ready_needs_plan_and_position(fleet: Seq<Entry>)
    requires
        indexed(fleet),
    ensures
        all_ready(fleet) <==> fleet.len() > 0 && forall|i: int|
            0 <= i < fleet.len() ==> (#[trigger] fleet[i]).state.plan is Some
                && fleet[i].state.latest_odom is Some,
{
}

} // verus!
