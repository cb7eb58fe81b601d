//! Cost maps of the cells allocated to a robot, and the safe zones that carry them.

use crate::executor::{lemma_zoned, Entry, ExecutorView, PlanExecutor, Robot, RobotView};
use crate::messages::{
    Costmap, Plan, PlanId, Pose, Position, SafeZone, SafeZoneId, TargetOrientation, Time,
};
use crate::region::{DomainRegion, DomainTargetRegion, RegionView, TargetRegionView};
use crate::single::Single;
use vstd::prelude::*;

verus! {

/// The cost of a cell that is not allocated.
pub const FORBIDDEN: u8 = 254;

/// 0.2 in single precision: how near to its target a robot has to come.
pub const TARGET_TOLERANCE: u32 = 0x3e4c_cccd;

/// The place of a cell in the data of a map. Cells count their rows from the top, the data from
/// the bottom.
pub open spec fn data_index(width: int, height: int, x: int, y: int) -> int {
    (height - 1 - y) * width + x
}

/// One of the positions is a cell of the map with the given place in the data.
pub open spec fn allocated(
    positions: Seq<(usize, usize)>,
    width: u32,
    height: u32,
    index: int,
) -> bool {
    exists|k: int|
        0 <= k < positions.len() && (#[trigger] positions[k]).0 < width && positions[k].1 < height
            && index == data_index(
            width as int,
            height as int,
            positions[k].0 as int,
            positions[k].1 as int,
        )
}

/// The map shows the allocated cells free and all others forbidden.
pub open spec fn shows(map: Costmap, positions: Seq<(usize, usize)>) -> bool {
    &&& map.data@.len() == map.size_x * map.size_y
    &&& forall|i: int|
        0 <= i < map.data@.len() ==> #[trigger] map.data@[i] == if allocated(
            positions,
            map.size_x,
            map.size_y,
            i,
        ) {
            0u8
        } else {
            FORBIDDEN
        }
}

/// The map bears the given marks.
pub open spec fn labelled(
    map: Costmap,
    width: u32,
    height: u32,
    resolution: Single,
    origin: Pose,
    stamp: Time,
) -> bool {
    &&& map.size_x == width
    &&& map.size_y == height
    &&& map.resolution == resolution
    &&& map.origin == origin
    &&& map.stamp == stamp
    &&& map.map_load_time == stamp
    &&& map.update_time == stamp
    &&& map.frame_id@ == "map"@
    &&& map.layer@ == "safe_zone"@
}

/// A cell of the map has a place in the data.
proof fn lemma_data_index(width: int, height: int, x: int, y: int)
    requires
        0 <= x < width,
        0 <= y < height,
    ensures
        0 <= (height - 1 - y) * width,
        0 <= data_index(width, height, x, y) < width * height,
{
    let row: int = height - 1 - y;
    assert(0 <= row * width && row * width + width <= width * height) by (nonlinear_arith)
        requires
            0 <= row,
            row + 1 <= height,
            0 < width,
    ;
}

/// Different cells have different places in the data.
proof fn lemma_data_index_injective(width: int, height: int, x: int, y: int, u: int, v: int)
    requires
        0 <= x < width,
        0 <= u < width,
        data_index(width, height, x, y) == data_index(width, height, u, v),
    ensures
        x == u,
        y == v,
{
    let a: int = height - 1 - y;
    let b: int = height - 1 - v;
    assert(a == b) by (nonlinear_arith)
        requires
            a * width + x == b * width + u,
            0 <= x < width,
            0 <= u < width,
    ;
}

/// A cell is shown free exactly where it is one of the allocated positions.
pub proof fn law_cell_is_free_iff_allocated(
    map: Costmap,
    positions: Seq<(usize, usize)>,
    x: usize,
    y: usize,
)
    requires
        shows(map, positions),
        x < map.size_x,
        y < map.size_y,
    ensures
        0 <= data_index(map.size_x as int, map.size_y as int, x as int, y as int)
            < map.data@.len(),
        map.data@[data_index(map.size_x as int, map.size_y as int, x as int, y as int)]
            == if positions.contains((x, y)) {
            0u8
        } else {
            FORBIDDEN
        },
{
    let w: int = map.size_x as int;
    let h: int = map.size_y as int;
    let index: int = data_index(w, h, x as int, y as int);
    lemma_data_index(w, h, x as int, y as int);
    if positions.contains((x, y)) {
        let k: int = choose|k: int| 0 <= k < positions.len() && positions[k] == (x, y);
        assert(allocated(positions, map.size_x, map.size_y, index));
    }
    if allocated(positions, map.size_x, map.size_y, index) {
        let k: int = choose|k: int|
            0 <= k < positions.len() && (#[trigger] positions[k]).0 < map.size_x && positions[k].1
                < map.size_y && index == data_index(
                w,
                h,
                positions[k].0 as int,
                positions[k].1 as int,
            );
        lemma_data_index_injective(
            w,
            h,
            x as int,
            y as int,
            positions[k].0 as int,
            positions[k].1 as int,
        );
        assert(positions[k] == (x, y));
    }
}

/// The zone is for a robot on the way to a waypoint.
pub open spec fn leads_to(
    zone: SafeZone,
    state: ExecutorView,
    agent: int,
    released: usize,
    positions: Seq<(usize, usize)>,
) -> bool {
    let robot: RobotView = state.fleet[agent].state;
    let target: Position = robot.plan->0.waypoints[released as int].position;
    let zero: Single = Single { bits: 0 };
    &&& zone.target_region@ == (TargetRegionView {
        tolerance: Single { bits: TARGET_TOLERANCE },
        region: RegionView { points: seq![target.x, target.y], hint: DomainRegion::HINT_POINT },
    })
    &&& zone.target_orientation == (TargetOrientation {
        orientation_radians: zero,
        spread_radians: zero,
        tolerance_radians: zero,
    })
    &&& shows(zone.costmap, positions)
    &&& labelled(
        zone.costmap,
        state.grid_width,
        state.grid_height,
        state.grid_resolution,
        state.grid_origin,
        robot.latest_odom->0.stamp,
    )
    &&& zone.target_waypoint == released
    &&& zone.last_waypoint == released
    &&& zone.target_progress == zero
    &&& zone.id == (SafeZoneId {
        plan_id: robot.plan->0.plan_id,
        safe_zone_version: robot.safe_zone_version,
    })
}

impl PlanExecutor {
    /// A cost map in which the given cells are free and all others are forbidden.
    pub fn to_costmap_msg(
        positions: &[(usize, usize)],
        width: u32,
        height: u32,
        resolution: Single,
        origin: Pose,
        stamp: Time,
    ) -> (r: Costmap)
        requires
            width * height <= u32::MAX,
        ensures
            labelled(r, width, height, resolution, origin, stamp),
            shows(r, positions@),
    {
        let size: u32 = width * height;
        let mut data: Vec<u8> = vec![FORBIDDEN; size as usize];
        let mut k: usize = 0;
        while k < positions.len()
            invariant
                k <= positions@.len(),
                width * height <= u32::MAX,
                data@.len() == width * height,
                forall|i: int|
                    0 <= i < data@.len() ==> #[trigger] data@[i] == if allocated(
                        positions@.take(k as int),
                        width,
                        height,
                        i,
                    ) {
                        0u8
                    } else {
                        FORBIDDEN
                    },
            decreases positions@.len() - k,
        {
            let (x, y) = positions[k];
            let ghost before: Seq<u8> = data@;
            let ghost shorter: Seq<(usize, usize)> = positions@.take(k as int);
            let ghost longer: Seq<(usize, usize)> = positions@.take(k + 1);
            assert(longer[k as int] == (x, y));
            if x < width as usize && y < height as usize {
                let row: usize = (height - 1) as usize - y;
                proof {
                    lemma_data_index(width as int, height as int, x as int, y as int);
                }
                let index: usize = row * (width as usize) + x;
                data[index] = 0;
            }
            proof {
                assert forall|i: int| 0 <= i < data@.len() implies #[trigger] data@[i]
                    == if allocated(longer, width, height, i) {
                    0u8
                } else {
                    FORBIDDEN
                } by {
                    assert(before[i] == if allocated(shorter, width, height, i) {
                        0u8
                    } else {
                        FORBIDDEN
                    });
                    if allocated(shorter, width, height, i) {
                        let j: int = choose|j: int|
                            0 <= j < shorter.len() && (#[trigger] shorter[j]).0 < width
                                && shorter[j].1 < height && i == data_index(
                                width as int,
                                height as int,
                                shorter[j].0 as int,
                                shorter[j].1 as int,
                            );
                        assert(longer[j] == shorter[j]);
                    }
                    if allocated(longer, width, height, i) && !allocated(
                        shorter,
                        width,
                        height,
                        i,
                    ) {
                        let j: int = choose|j: int|
                            0 <= j < longer.len() && (#[trigger] longer[j]).0 < width
                                && longer[j].1 < height && i == data_index(
                                width as int,
                                height as int,
                                longer[j].0 as int,
                                longer[j].1 as int,
                            );
                        if j < k {
                            assert(shorter[j] == longer[j]);
                        }
                    }
                }
            }
            k = k + 1;
        }
        assert(positions@.take(k as int) =~= positions@);
        Costmap {
            stamp,
            frame_id: "map".to_owned(),
            map_load_time: stamp,
            update_time: stamp,
            layer: "safe_zone".to_owned(),
            resolution,
            size_x: width,
            size_y: height,
            origin,
            data,
        }
    }

    /// Whether the map of the grid can be laid out in memory.
    pub fn can_map(&self) -> (r: bool)
        ensures
            r == (self@.grid_width * self@.grid_height <= u32::MAX),
    {
        let w: u64 = self.grid_width as u64;
        let h: u64 = self.grid_height as u64;
        assert(w * h <= 0xffff_ffff * 0xffff_ffff) by (nonlinear_arith)
            requires
                w <= 0xffff_ffff,
                h <= 0xffff_ffff,
        ;
        w * h <= u32::MAX as u64
    }

    /// A new safe zone for a robot on the way to a waypoint of its plan, with the cells that are
    /// allocated to it. Its version is one more than that of the one before.
    pub fn safe_zone(
        &mut self,
        agent: usize,
        released: usize,
        positions: &[(usize, usize)],
    ) -> (r: SafeZone)
        requires
            old(self).wf(),
            agent < old(self)@.fleet.len(),
            old(self)@.fleet[agent as int].state.plan is Some,
            old(self)@.fleet[agent as int].state.latest_odom is Some,
            released < old(self)@.fleet[agent as int].state.plan->0.waypoints.len(),
            old(self)@.fleet[agent as int].state.safe_zone_version < u64::MAX,
            old(self)@.grid_width * old(self)@.grid_height <= u32::MAX,
        ensures
            final(self).wf(),
            final(self)@ == old(self)@.zoned(agent as int),
            leads_to(r, final(self)@, agent as int, released, positions@),
    {
        let stamp: Time = self.odom_of(agent).stamp;
        let costmap: Costmap = PlanExecutor::to_costmap_msg(
            positions,
            self.grid_width,
            self.grid_height,
            self.grid_resolution,
            self.grid_origin,
            stamp,
        );
        let plan: &Plan = self.plan_of(agent);
        let plan_id: PlanId = plan.plan_id;
        let target: Position = plan.waypoints[released].position;
        let version: u64 = self.active_robots[agent].state.safe_zone_version + 1;
        let ghost before: Seq<Entry> = self@.fleet;
        let ghost robots: Seq<Robot> = self.active_robots@;
        self.active_robots[agent].state.safe_zone_version = version;
        proof {
            assert forall|j: int| 0 <= j < robots.len() && j != agent implies
                #[trigger] self.active_robots@[j] == robots[j] by {}
            assert(before[agent as int] == robots[agent as int]@);
            assert(self@.fleet =~= old(self)@.zoned(agent as int).fleet);
            lemma_zoned(old(self)@, agent as int);
        }
        let zero: Single = Single { bits: 0 };
        let mut points: Vec<Single> = Vec::new();
        points.push(target.x);
        points.push(target.y);
        assert(points@ =~= seq![target.x, target.y]);
        SafeZone {
            target_region: DomainTargetRegion {
                tolerance: Single { bits: TARGET_TOLERANCE },
                region: DomainRegion { points, hint: DomainRegion::HINT_POINT },
            },
            target_orientation: TargetOrientation {
                orientation_radians: zero,
                spread_radians: zero,
                tolerance_radians: zero,
            },
            costmap,
            target_waypoint: released as u64,
            last_waypoint: released as u64,
            target_progress: zero,
            id: SafeZoneId { plan_id, safe_zone_version: version },
        }
    }
}

} // verus!
