//! The occupancy grid: which session holds which cell, and the reservation of cells.

use crate::grid::{
    compute_bounds, lemma_rows_grow, range_of, region_bounds, regions_fit, CellRange,
};
use crate::ledger::{AgentSessions, SessionLocations};
use crate::region::{
    alternatives, DomainDestinationConstraints, DomainRegion, RegionView, ReservationError,
    ShapeErr, TargetRegionView,
};
use crate::session::SessionUUID;
use crate::single::Single;
use vstd::prelude::*;

verus! {

/// The state of the reservation service.
pub struct Occupancy {
    /// The session that holds each occupied cell.
    pub cells: Map<(int, int), Seq<u8>>,
    /// The cells entered for each session.
    pub locations: Map<Seq<u8>, Seq<(u32, u32)>>,
    /// The session of each agent.
    pub agents: Map<Seq<char>, Seq<u8>>,
    /// The size of a cell.
    pub grid_size: Single,
}

/// The list names the cell.
pub open spec fn lists(list: Seq<(u32, u32)>, cell: (int, int)) -> bool {
    exists|i: int| 0 <= i < list.len() && (#[trigger] list[i]).0 == cell.0 && list[i].1 == cell.1
}

impl Occupancy {
    /// No cell of the block is held by another session than `ignore`.
    pub open spec fn block_free(self, range: CellRange, ignore: Option<Seq<u8>>) -> bool {
        forall|cell: (int, int)|
            range.contains(cell) && #[trigger] self.cells.contains_key(cell) ==> Some(
                self.cells[cell],
            ) == ignore
    }

    /// Whether a region is free. A region without cells counts as free where its hint is a
    /// supported one and it has two coordinates at least.
    pub open spec fn region_free(self, region: RegionView, ignore: Option<Seq<u8>>) -> Result<
        bool,
        ShapeErr,
    > {
        match region_bounds(region, self.grid_size) {
            Some(range) => Ok(self.block_free(range, ignore)),
            None => {
                if region.hint != DomainRegion::HINT_AXIS_ALIGNED_RECTANGLE && region.hint
                    != DomainRegion::HINT_POINT {
                    Err(ShapeErr::UnsupportedHint)
                } else if region.points.len() < 2 {
                    Err(ShapeErr::InvalidPoints)
                } else {
                    Ok(true)
                }
            },
        }
    }

    /// All the regions are free.
    pub open spec fn available(
        self,
        regions: Seq<TargetRegionView>,
        ignore: Option<Seq<u8>>,
    ) -> bool {
        forall|i: int|
            0 <= i < regions.len() ==> #[trigger] self.region_free(regions[i].region, ignore)
                == Ok::<bool, ShapeErr>(true)
    }

    /// The session of an agent.
    pub open spec fn session_of(self, agent: Seq<char>) -> Option<Seq<u8>> {
        if self.agents.contains_key(agent) {
            Some(self.agents[agent])
        } else {
            None
        }
    }

    /// The first of the alternatives from `from` on that is free for a session.
    pub open spec fn first_available(
        self,
        options: Seq<Seq<TargetRegionView>>,
        ignore: Option<Seq<u8>>,
        from: int,
    ) -> Option<int>
        decreases options.len() - from,
    {
        if from >= options.len() {
            None
        } else if self.available(options[from], ignore) {
            Some(from)
        } else {
            self.first_available(options, ignore, from + 1)
        }
    }

    /// The alternative that an agent gets, if any: the first one whose regions are all free but
    /// for what the agent itself holds.
    pub open spec fn choice(
        self,
        agent: Seq<char>,
        options: Seq<Seq<TargetRegionView>>,
    ) -> Option<int> {
        self.first_available(options, self.session_of(agent), 0)
    }

    /// The cells entered for a session.
    pub open spec fn listed(self, session: Seq<u8>) -> Seq<(u32, u32)> {
        if self.locations.contains_key(session) {
            self.locations[session]
        } else {
            Seq::empty()
        }
    }

    /// The cells of the block are given to a session and entered for it.
    pub open spec fn marked(self, session: Seq<u8>, range: CellRange) -> Occupancy {
        Occupancy {
            cells: self.cells.union_prefer_right(
                Map::new(|cell: (int, int)| range.contains(cell), |cell: (int, int)| session),
            ),
            locations: if range.empty() {
                self.locations
            } else {
                self.locations.insert(session, self.listed(session) + range.cell_list())
            },
            ..self
        }
    }

    /// The cells of a region are given to a session.
    pub open spec fn region_marked(self, session: Seq<u8>, region: RegionView) -> Occupancy {
        match region_bounds(region, self.grid_size) {
            Some(range) => self.marked(session, range),
            None => self,
        }
    }

    /// The cells of the first `n` regions are given to a session, one region after the other.
    pub open spec fn all_marked(
        self,
        session: Seq<u8>,
        regions: Seq<TargetRegionView>,
        n: nat,
    ) -> Occupancy
        decreases n,
    {
        if n == 0 {
            self
        } else {
            self.all_marked(session, regions, (n - 1) as nat).region_marked(
                session,
                regions[n - 1].region,
            )
        }
    }

    /// The cells entered for a session are vacated, and the session is struck out.
    pub open spec fn cleared(self, session: Seq<u8>) -> Occupancy {
        Occupancy {
            cells: self.cells.remove_keys(
                Set::new(|cell: (int, int)| lists(self.listed(session), cell)),
            ),
            locations: self.locations.remove(session),
            ..self
        }
    }

    /// The agent's own session is cleared, if it has one.
    pub open spec fn vacated(self, agent: Seq<char>) -> Occupancy {
        match self.session_of(agent) {
            Some(session) => self.cleared(session),
            None => self,
        }
    }

    /// The agent gives up what it holds and gets all the regions, under the given session.
    pub open spec fn granted(
        self,
        agent: Seq<char>,
        regions: Seq<TargetRegionView>,
        session: Seq<u8>,
    ) -> Occupancy {
        let moved: Occupancy = self.vacated(agent).all_marked(session, regions, regions.len());
        Occupancy { agents: moved.agents.insert(agent, session), ..moved }
    }

    /// What comes of a request for one of several alternatives.
    pub open spec fn reserved(
        self,
        agent: Seq<char>,
        options: Seq<Seq<TargetRegionView>>,
        session: Seq<u8>,
    ) -> Occupancy {
        match self.choice(agent, options) {
            Some(i) => self.granted(agent, options[i], session),
            None => self,
        }
    }
}

/// The occupancy grid with its books.
pub struct CurrentlyOccupiedDestinations {
    /// Rows of cells: vacant, or held by a session. What lies beyond is vacant.
    pub floor_space: Vec<Vec<Option<SessionUUID>>>,
    /// The cells entered for each session.
    pub session_to_location: SessionLocations,
    /// The one session of each agent.
    pub agent_to_session: AgentSessions,
    /// The size of a cell.
    pub grid_size: Single,
}

/// The session that holds a cell of the floor.
pub open spec fn holder(floor: Seq<Vec<Option<SessionUUID>>>, cell: (int, int)) -> Option<
    SessionUUID,
> {
    if 0 <= cell.1 < floor.len() && 0 <= cell.0 < floor[cell.1]@.len() {
        floor[cell.1]@[cell.0]
    } else {
        None
    }
}

/// The occupied cells of the floor.
pub open spec fn held_cells(floor: Seq<Vec<Option<SessionUUID>>>) -> Map<(int, int), Seq<u8>> {
    Map::new(
        |cell: (int, int)| holder(floor, cell) is Some,
        |cell: (int, int)| holder(floor, cell)->0@,
    )
}

/// How many cells each row of the floor holds.
pub open spec fn shape(floor: Seq<Vec<Option<SessionUUID>>>) -> Seq<nat> {
    Seq::new(floor.len(), |y: int| floor[y]@.len())
}

/// The rows with room for a block: as many as it takes to reach its last row, and those of its
/// own long enough to reach its last column. Nothing gets shorter.
pub open spec fn with_room(rows: Seq<nat>, range: CellRange) -> Seq<nat> {
    Seq::new(
        if rows.len() <= range.end_y {
            (range.end_y + 1) as nat
        } else {
            rows.len()
        },
        |y: int|
            {
                let length: nat = if y < rows.len() {
                    rows[y]
                } else {
                    0
                };
                if range.start_y <= y <= range.end_y && length <= range.end_x {
                    (range.end_x + 1) as nat
                } else {
                    length
                }
            },
    )
}

/// The rows with room for a region.
pub open spec fn with_region(rows: Seq<nat>, region: RegionView, cell_size: Single) -> Seq<nat> {
    match region_bounds(region, cell_size) {
        Some(range) => with_room(rows, range),
        None => rows,
    }
}

/// The rows with room for the first `n` regions.
pub open spec fn with_regions(
    rows: Seq<nat>,
    regions: Seq<TargetRegionView>,
    cell_size: Single,
    n: nat,
) -> Seq<nat>
    decreases n,
{
    if n == 0 {
        rows
    } else {
        with_region(
            with_regions(rows, regions, cell_size, (n - 1) as nat),
            regions[n - 1].region,
            cell_size,
        )
    }
}

/// Every row of the one floor is there on the other, and not shorter.
pub open spec fn no_smaller(before: Seq<nat>, after: Seq<nat>) -> bool {
    before.len() <= after.len() && forall|y: int|
        0 <= y < before.len() ==> before[y] <= #[trigger] after[y]
}

/// The rows of the floor once a request is served: with room for what is granted.
pub open spec fn rows_after(
    rows: Seq<nat>,
    state: Occupancy,
    agent: Seq<char>,
    options: Seq<Seq<TargetRegionView>>,
) -> Seq<nat> {
    match state.choice(agent, options) {
        Some(i) => with_regions(rows, options[i], state.grid_size, options[i].len()),
        None => rows,
    }
}

/// Making room for regions never shortens a row, and never takes one away.
pub proof fn law_floor_never_shrinks(
    rows: Seq<nat>,
    regions: Seq<TargetRegionView>,
    cell_size: Single,
    n: nat,
)
    ensures
        no_smaller(rows, with_regions(rows, regions, cell_size, n)),
    decreases n,
{
    if n > 0 {
        law_floor_never_shrinks(rows, regions, cell_size, (n - 1) as nat);
    }
}

impl View for CurrentlyOccupiedDestinations {
    type V = Occupancy;

    open spec fn view(&self) -> Occupancy {
        Occupancy {
            cells: held_cells(self.floor_space@),
            locations: self.session_to_location@,
            agents: self.agent_to_session@,
            grid_size: self.grid_size,
        }
    }
}

impl CurrentlyOccupiedDestinations {
    /// The books are in order.
    pub open spec fn wf(&self) -> bool {
        self.session_to_location.wf() && self.agent_to_session.wf()
    }

    /// An empty floor with cells of the given size.
    pub fn new(grid_size: Single) -> (r: Self)
        ensures
            r.wf(),
            r.floor_space@.len() == 0,
            r@ == (Occupancy {
                cells: Map::empty(),
                locations: Map::empty(),
                agents: Map::empty(),
                grid_size,
            }),
    {
        let r: CurrentlyOccupiedDestinations = CurrentlyOccupiedDestinations {
            floor_space: Vec::new(),
            session_to_location: SessionLocations::new(),
            agent_to_session: AgentSessions::new(),
            grid_size,
        };
        assert(r@.cells =~= Map::empty());
        r
    }

    /// The cells that a region covers: first and last column, first and last row.
    pub fn get_region_grid_bounds(&self, region: &DomainRegion) -> (r: Option<
        (usize, usize, usize, usize),
    >)
        ensures
            match r {
                Some(bounds) => region_bounds(region@, self.grid_size) == Some(range_of(bounds)),
                None => region_bounds(region@, self.grid_size) is None,
            },
    {
        compute_bounds(region, self.grid_size)
    }

    /// Whether a region is free, not counting the cells of one session.
    pub fn check_if_region_free(
        &self,
        region: &DomainRegion,
        ignore_session: Option<&SessionUUID>,
    ) -> (r: Result<bool, ShapeErr>)
        ensures
            r == self@.region_free(
                region@,
                match ignore_session {
                    Some(session) => Some(session@),
                    None => None,
                },
            ),
    {
        let ghost ignore: Option<Seq<u8>> = match ignore_session {
            Some(session) => Some(session@),
            None => None,
        };
        let bounds: Option<(usize, usize, usize, usize)> = self.get_region_grid_bounds(region);
        match bounds {
            None => {
                if region.hint == DomainRegion::HINT_AXIS_ALIGNED_RECTANGLE || region.hint
                    == DomainRegion::HINT_POINT {
                    if region.points.len() < 2 {
                        return Err(ShapeErr::InvalidPoints);
                    }
                } else {
                    return Err(ShapeErr::UnsupportedHint);
                }
                Ok(true)
            },
            Some((start_x, end_x, start_y, end_y)) => {
                let ghost range: CellRange = range_of((start_x, end_x, start_y, end_y));
                let mut y: usize = start_y;
                while y <= end_y && y < self.floor_space.len()
                    invariant
                        range == range_of((start_x, end_x, start_y, end_y)),
                        start_y <= y,
                        ignore == (match ignore_session {
                            Some(session) => Some(session@),
                            None => None,
                        }),
                        region_bounds(region@, self.grid_size) == Some(range),
                        self@.block_free(range.rows_before(y as int), ignore),
                    decreases self.floor_space.len() - y,
                {
                    let row: &Vec<Option<SessionUUID>> = &self.floor_space[y];
                    let mut x: usize = start_x;
                    while x <= end_x && x < row.len()
                        invariant
                            range == range_of((start_x, end_x, start_y, end_y)),
                            start_y <= y <= end_y,
                            y < self.floor_space.len(),
                            start_x <= x,
                            row == self.floor_space@[y as int],
                            ignore == (match ignore_session {
                                Some(session) => Some(session@),
                                None => None,
                            }),
                            region_bounds(region@, self.grid_size) == Some(range),
                            forall|i: int|
                                start_x <= i < x && 0 <= i < row.len() && #[trigger] row@[i] is Some
                                    ==> Some(row@[i]->0@) == ignore,
                        decreases row.len() - x,
                    {
                        if let Some(occupying) = &row[x] {
                            let mine: bool = match ignore_session {
                                Some(session) => occupying.same(session),
                                None => false,
                            };
                            if !mine {
                                proof {
                                    let cell: (int, int) = (x as int, y as int);
                                    assert(range.contains(cell));
                                    assert(self@.cells.contains_key(cell));
                                }
                                return Ok(false);
                            }
                        }
                        x = x + 1;
                    }
                    proof {
                        assert forall|cell: (int, int)|
                            range.rows_before(y + 1).contains(cell)
                                && #[trigger] self@.cells.contains_key(cell) implies Some(
                            self@.cells[cell],
                        ) == ignore by {
                            if cell.1 == y {
                                assert(row@[cell.0] is Some);
                            } else {
                                assert(range.rows_before(y as int).contains(cell));
                            }
                        }
                    }
                    y = y + 1;
                }
                proof {
                    assert forall|cell: (int, int)|
                        range.contains(cell) && #[trigger] self@.cells.contains_key(cell) implies Some(
                        self@.cells[cell],
                    ) == ignore by {
                        assert(range.rows_before(y as int).contains(cell));
                    }
                }
                Ok(true)
            },
        }
    }

    /// Vacates the cells entered for a session and strikes the session out.
    pub fn clear_old_uuid(&mut self, session: &SessionUUID)
        requires
            old(self).wf(),
        ensures
            final(self).wf(),
            final(self)@ == old(self)@.cleared(session@),
            shape(final(self).floor_space@) == shape(old(self).floor_space@),
    {
        let ghost before: Occupancy = self@;
        match self.session_to_location.get(session) {
            None => {
                proof {
                    assert(before.cells =~= before.cleared(session@).cells);
                    assert(before.locations =~= before.cleared(session@).locations);
                }
                return ;
            },
            Some(locations) => {
                let mut i: usize = 0;
                while i < locations.len()
                    invariant
                        i <= locations.len(),
                        self.session_to_location == old(self).session_to_location,
                        self.agent_to_session == old(self).agent_to_session,
                        self.grid_size == old(self).grid_size,
                        shape(self.floor_space@) == shape(old(self).floor_space@),
                        forall|cell: (int, int)| #[trigger]
                            holder(self.floor_space@, cell) == if lists(
                                locations@.take(i as int),
                                cell,
                            ) {
                                None
                            } else {
                                holder(old(self).floor_space@, cell)
                            },
                    decreases locations.len() - i,
                {
                    let x: usize = locations[i].0 as usize;
                    let y: usize = locations[i].1 as usize;
                    let ghost floor: Seq<Vec<Option<SessionUUID>>> = self.floor_space@;
                    if y < self.floor_space.len() && x < self.floor_space[y].len() {
                        self.floor_space[y][x] = None;
                    }
                    proof {
                        assert(shape(self.floor_space@) =~= shape(floor));
                        let shorter: Seq<(u32, u32)> = locations@.take(i as int);
                        let longer: Seq<(u32, u32)> = locations@.take(i + 1);
                        assert forall|cell: (int, int)| #[trigger]
                            holder(self.floor_space@, cell) == if lists(longer, cell) {
                                None
                            } else {
                                holder(old(self).floor_space@, cell)
                            } by {
                            assert(longer[i as int] == locations@[i as int]);
                            assert(holder(floor, cell) == if lists(shorter, cell) {
                                None
                            } else {
                                holder(old(self).floor_space@, cell)
                            });
                            if lists(shorter, cell) {
                                let j: int = choose|j: int|
                                    0 <= j < shorter.len() && (#[trigger] shorter[j]).0 == cell.0
                                        && shorter[j].1 == cell.1;
                                assert(longer[j] == shorter[j]);
                            }
                            if lists(longer, cell) && !lists(shorter, cell) {
                                let j: int = choose|j: int|
                                    0 <= j < longer.len() && (#[trigger] longer[j]).0 == cell.0
                                        && longer[j].1 == cell.1;
                                if j < i {
                                    assert(shorter[j] == longer[j]);
                                }
                            }
                        }
                    }
                    i = i + 1;
                }
                proof {
                    assert(locations@.take(i as int) =~= locations@);
                    assert(before.listed(session@) == locations@);
                    assert(held_cells(self.floor_space@) =~= before.cleared(session@).cells) by {
                        assert forall|cell: (int, int)|
                            #![trigger held_cells(self.floor_space@).dom().contains(cell)]
                            held_cells(self.floor_space@).dom().contains(cell)
                                == before.cleared(session@).cells.dom().contains(cell) by {
                            assert(holder(self.floor_space@, cell) == if lists(
                                locations@,
                                cell,
                            ) {
                                None
                            } else {
                                holder(old(self).floor_space@, cell)
                            });
                        }
                    }
                }
            },
        }
        self.session_to_location.remove(session);
    }

    /// Gives one cell to a session and enters it.
    fn mark_cell(&mut self, session: &SessionUUID, x: usize, y: usize)
        requires
            old(self).wf(),
            y < old(self).floor_space@.len(),
            x < old(self).floor_space@[y as int]@.len(),
        ensures
            final(self).wf(),
            final(self)@ == (Occupancy {
                cells: old(self)@.cells.insert((x as int, y as int), session@),
                locations: old(self)@.locations.insert(
                    session@,
                    old(self)@.listed(session@).push((x as u32, y as u32)),
                ),
                ..old(self)@
            }),
            shape(final(self).floor_space@) == shape(old(self).floor_space@),
    {
        self.floor_space[y][x] = Some(*session);
        proof {
            assert(shape(self.floor_space@) =~= shape(old(self).floor_space@));
            assert(held_cells(self.floor_space@) =~= old(self)@.cells.insert(
                (x as int, y as int),
                session@,
            ));
        }
        self.session_to_location.enter(session, (x as u32, y as u32));
    }

    /// Gives the cells of one row to a session.
    fn mark_row(&mut self, session: &SessionUUID, start_x: usize, end_x: usize, y: usize)
        requires
            old(self).wf(),
            y < old(self).floor_space@.len(),
            end_x < usize::MAX,
        ensures
            final(self).wf(),
            final(self)@ == old(self)@.marked(session@, range_of((start_x, end_x, y, y))),
            shape(final(self).floor_space@) == with_room(
                shape(old(self).floor_space@),
                range_of((start_x, end_x, y, y)),
            ),
    {
        if self.floor_space[y].len() <= end_x {
            let ghost floor: Seq<Vec<Option<SessionUUID>>> = self.floor_space@;
            self.floor_space[y].resize(end_x + 1, None);
            proof {
                assert forall|cell: (int, int)| #[trigger]
                    holder(self.floor_space@, cell) == holder(floor, cell) by {
                    if cell.1 == y && 0 <= cell.0 < floor[y as int]@.len() {
                        assert(self.floor_space@[y as int]@.subrange(
                            0,
                            floor[y as int]@.len() as int,
                        )[cell.0] == self.floor_space@[y as int]@[cell.0]);
                    }
                }
                assert(held_cells(self.floor_space@) =~= held_cells(floor));
            }
        }
        let ghost before: Occupancy = self@;
        assert(before == old(self)@);
        let ghost block: CellRange = range_of((start_x, end_x, y, y));
        let ghost rows: Seq<nat> = with_room(shape(old(self).floor_space@), block);
        assert(shape(self.floor_space@) =~= rows);
        let mut x: usize = start_x;
        proof {
            lemma_nothing_marked(before, session@, columns_before(block, x as int));
        }
        while x <= end_x
            invariant
                self.wf(),
                start_x <= x,
                start_x <= end_x ==> x <= end_x + 1,
                start_x > end_x ==> x == start_x,
                y < rows.len(),
                end_x < rows[y as int],
                end_x < usize::MAX,
                block == range_of((start_x, end_x, y, y)),
                shape(self.floor_space@) == rows,
                self@ == before.marked(session@, columns_before(block, x as int)),
            decreases end_x + 1 - x,
        {
            assert(shape(self.floor_space@)[y as int] == self.floor_space@[y as int]@.len());
            self.mark_cell(session, x, y);
            proof {
                lemma_column_marked(before, session@, block, x as int);
            }
            x = x + 1;
        }
        proof {
            if start_x <= end_x {
                assert(columns_before(block, x as int) == block);
            } else {
                lemma_nothing_marked(before, session@, columns_before(block, x as int));
                lemma_nothing_marked(before, session@, block);
            }
        }
    }

    /// Gives the cells of a region to a session.
    pub fn mark_region(&mut self, session: &SessionUUID, region: &DomainRegion)
        requires
            old(self).wf(),
            region_bounds(region@, old(self).grid_size) matches Some(range) ==> range.fits(),
        ensures
            final(self).wf(),
            final(self)@ == old(self)@.region_marked(session@, region@),
            shape(final(self).floor_space@) == with_region(
                shape(old(self).floor_space@),
                region@,
                old(self).grid_size,
            ),
            final(self).floor_space@.len() >= old(self).floor_space@.len(),
            forall|y: int|
                0 <= y < old(self).floor_space@.len() ==> #[trigger] final(self).floor_space@[y]@.len()
                    >= old(self).floor_space@[y]@.len(),
    {
        match self.get_region_grid_bounds(region) {
            None => {},
            Some((start_x, end_x, start_y, end_y)) => {
                if self.floor_space.len() <= end_y {
                    let ghost floor: Seq<Vec<Option<SessionUUID>>> = self.floor_space@;
                    self.floor_space.resize(end_y + 1, Vec::new());
                    proof {
                        assert forall|cell: (int, int)| #[trigger]
                            holder(self.floor_space@, cell) == holder(floor, cell) by {
                            if 0 <= cell.1 < floor.len() {
                                assert(self.floor_space@.subrange(
                                    0,
                                    floor.len() as int,
                                )[cell.1] == self.floor_space@[cell.1]);
                            }
                        }
                        assert(held_cells(self.floor_space@) =~= held_cells(floor));
                    }
                }
                let ghost before: Occupancy = self@;
                let ghost range: CellRange = range_of((start_x, end_x, start_y, end_y));
                let ghost rows: Seq<nat> = shape(old(self).floor_space@);
                let mut y: usize = start_y;
                proof {
                    assert(shape(self.floor_space@) =~= rows_done(rows, range, y as int));
                    lemma_nothing_marked(before, session@, range.rows_before(y as int));
                }
                while y <= end_y
                    invariant
                        self.wf(),
                        start_y <= y,
                        start_y <= end_y ==> y <= end_y + 1,
                        start_y > end_y ==> y == start_y,
                        end_y < rows_done(rows, range, y as int).len(),
                        shape(self.floor_space@) == rows_done(rows, range, y as int),
                        end_y < usize::MAX,
                        start_y <= end_y ==> end_x < usize::MAX,
                        range == range_of((start_x, end_x, start_y, end_y)),
                        self@ == before.marked(session@, range.rows_before(y as int)),
                    decreases end_y + 1 - y,
                {
                    assert(shape(self.floor_space@).len() == self.floor_space@.len());
                    self.mark_row(session, start_x, end_x, y);
                    proof {
                        assert(shape(self.floor_space@) =~= rows_done(rows, range, y + 1));
                        lemma_row_marked(before, session@, range, y as int);
                    }
                    y = y + 1;
                }
                proof {
                    assert(rows_done(rows, range, y as int) =~= with_room(rows, range));
                    let after: Seq<Vec<Option<SessionUUID>>> = self.floor_space@;
                    assert forall|r: int| 0 <= r < old(self).floor_space@.len() implies (
                    #[trigger] after[r])@.len() >= old(self).floor_space@[r]@.len() by {
                        assert(shape(after)[r] == after[r]@.len());
                    }
                    if start_y <= end_y {
                        assert(range.rows_before(y as int) == range);
                    } else {
                        lemma_nothing_marked(before, session@, range.rows_before(y as int));
                        lemma_nothing_marked(before, session@, range);
                    }
                }
            },
        }
    }

    /// Whether all the regions of an alternative are free, not counting the cells of one
    /// session. A region that cannot be looked up is not free.
    fn is_available(
        &self,
        constraints: &DomainDestinationConstraints,
        ignore_session: Option<&SessionUUID>,
    ) -> (r: bool)
        ensures
            r == self@.available(
                constraints@,
                match ignore_session {
                    Some(session) => Some(session@),
                    None => None,
                },
            ),
    {
        let ghost ignore: Option<Seq<u8>> = match ignore_session {
            Some(session) => Some(session@),
            None => None,
        };
        let mut i: usize = 0;
        while i < constraints.regions.len()
            invariant
                i <= constraints.regions.len(),
                ignore == (match ignore_session {
                    Some(session) => Some(session@),
                    None => None,
                }),
                forall|j: int|
                    0 <= j < i ==> #[trigger] self@.region_free(constraints@[j].region, ignore)
                        == Ok::<bool, ShapeErr>(true),
            decreases constraints.regions.len() - i,
        {
            let free: Result<bool, ShapeErr> = self.check_if_region_free(
                &constraints.regions[i].region,
                ignore_session,
            );
            assert(constraints@[i as int] == constraints.regions@[i as int]@);
            match free {
                Ok(true) => {},
                _ => {
                    assert(self@.region_free(constraints@[i as int].region, ignore) != Ok::<
                        bool,
                        ShapeErr,
                    >(true));
                    return false;
                },
            }
            i = i + 1;
        }
        true
    }

    /// The alternative that an agent would get.
    pub fn find_available(&self, agent: &str, constraints: &[DomainDestinationConstraints]) -> (r:
        Option<usize>)
        requires
            self.wf(),
        ensures
            match r {
                Some(i) => i < constraints@.len() && self@.choice(
                    agent@,
                    alternatives(constraints@),
                ) == Some(i as int),
                None => self@.choice(agent@, alternatives(constraints@)) is None,
            },
    {
        let ignore: Option<&SessionUUID> = self.agent_to_session.get(agent);
        let ghost options: Seq<Seq<TargetRegionView>> = alternatives(constraints@);
        let mut i: usize = 0;
        while i < constraints.len()
            invariant
                i <= constraints@.len(),
                options == alternatives(constraints@),
                (match ignore {
                    Some(session) => Some(session@),
                    None => None,
                }) == self@.session_of(agent@),
                self@.choice(agent@, options) == self@.first_available(
                    options,
                    self@.session_of(agent@),
                    i as int,
                ),
            decreases constraints@.len() - i,
        {
            if self.is_available(&constraints[i], ignore) {
                return Some(i);
            }
            i = i + 1;
        }
        None
    }

    /// Whether all the regions of an alternative can be laid out in memory.
    pub fn can_hold(&self, constraints: &DomainDestinationConstraints) -> (r: bool)
        ensures
            r == regions_fit(constraints@, self.grid_size),
    {
        let mut i: usize = 0;
        while i < constraints.regions.len()
            invariant
                i <= constraints.regions.len(),
                forall|j: int|
                    0 <= j < i ==> ((#[trigger] region_bounds(
                        constraints@[j].region,
                        self.grid_size,
                    )) matches Some(range) ==> range.fits()),
            decreases constraints.regions.len() - i,
        {
            assert(constraints@[i as int] == constraints.regions@[i as int]@);
            if let Some((start_x, end_x, start_y, end_y)) = self.get_region_grid_bounds(
                &constraints.regions[i].region,
            ) {
                if end_y == usize::MAX || (start_y <= end_y && end_x == usize::MAX) {
                    proof {
                        let range: CellRange = range_of((start_x, end_x, start_y, end_y));
                        assert(region_bounds(constraints@[i as int].region, self.grid_size)
                            == Some(range));
                        assert(!range.fits());
                    }
                    return false;
                }
            }
            i = i + 1;
        }
        true
    }

    /// Reserves the first of the alternatives whose regions are all free, but for what the agent
    /// itself holds, under the given session. The agent gives up what it held before. Where no
    /// alternative is free nothing changes.
    pub fn reserve_one_of(
        &mut self,
        agent: &str,
        constraints: &[DomainDestinationConstraints],
        session: &SessionUUID,
    ) -> (r: Result<DomainDestinationConstraints, ReservationError>)
        requires
            old(self).wf(),
            old(self)@.choice(agent@, alternatives(constraints@)) matches Some(i) ==> regions_fit(
                alternatives(constraints@)[i],
                old(self).grid_size,
            ),
        ensures
            final(self).wf(),
            final(self)@ == old(self)@.reserved(agent@, alternatives(constraints@), session@),
            r is Err ==> final(self)@ == old(self)@,
            shape(final(self).floor_space@) == rows_after(
                shape(old(self).floor_space@),
                old(self)@,
                agent@,
                alternatives(constraints@),
            ),
            match old(self)@.choice(agent@, alternatives(constraints@)) {
                Some(i) => r matches Ok(granted) && 0 <= i < constraints@.len() && granted@
                    == constraints@[i]@,
                None => r == Err::<DomainDestinationConstraints, ReservationError>(
                    ReservationError::NoAvailableConstraints,
                ),
            },
    {
        match self.find_available(agent, constraints) {
            None => Err(ReservationError::NoAvailableConstraints),
            Some(id) => {
                let held: Option<SessionUUID> = match self.agent_to_session.get(agent) {
                    Some(old_uuid) => Some(*old_uuid),
                    None => None,
                };
                if let Some(old_uuid) = held {
                    self.clear_old_uuid(&old_uuid);
                }
                let selected: DomainDestinationConstraints = constraints[id].clone();
                let ghost base: Occupancy = old(self)@.vacated(agent@);
                let mut i: usize = 0;
                while i < selected.regions.len()
                    invariant
                        self.wf(),
                        i <= selected.regions.len(),
                        regions_fit(selected@, old(self).grid_size),
                        self.grid_size == old(self).grid_size,
                        self@ == base.all_marked(session@, selected@, i as nat),
                        shape(self.floor_space@) == with_regions(
                            shape(old(self).floor_space@),
                            selected@,
                            old(self).grid_size,
                            i as nat,
                        ),
                    decreases selected.regions.len() - i,
                {
                    assert(selected@[i as int] == selected.regions@[i as int]@);
                    assert(region_bounds(selected@[i as int].region, self.grid_size) matches Some(
                        range,
                    ) ==> range.fits());
                    self.mark_region(session, &selected.regions[i].region);
                    assert(self@.grid_size == self.grid_size);
                    i = i + 1;
                }
                self.agent_to_session.insert(agent, *session);
                Ok(selected)
            },
        }
    }
}

impl Default for CurrentlyOccupiedDestinations {
    /// An empty floor with cells of size one.
    fn default() -> (r: Self)
        ensures
            r.wf(),
            r.floor_space@.len() == 0,
            r@ == (Occupancy {
                cells: Map::empty(),
                locations: Map::empty(),
                agents: Map::empty(),
                grid_size: Single { bits: 0x3f80_0000 },
            }),
    {
        CurrentlyOccupiedDestinations::new(Single { bits: 0x3f80_0000 })
    }
}

/// The rows of the floor once it reaches the last row of a block, and those of the block before
/// the row `y` its last column.
spec fn rows_done(rows: Seq<nat>, range: CellRange, y: int) -> Seq<nat> {
    Seq::new(
        if rows.len() <= range.end_y {
            (range.end_y + 1) as nat
        } else {
            rows.len()
        },
        |r: int|
            {
                let length: nat = if r < rows.len() {
                    rows[r]
                } else {
                    0
                };
                if range.start_y <= r < y && r <= range.end_y && length <= range.end_x {
                    (range.end_x + 1) as nat
                } else {
                    length
                }
            },
    )
}

/// The part of a block before the column `x`.
spec fn columns_before(block: CellRange, x: int) -> CellRange {
    CellRange { end_x: x - 1, ..block }
}

/// Marking an empty block changes nothing.
proof fn lemma_nothing_marked(state: Occupancy, session: Seq<u8>, range: CellRange)
    requires
        range.empty(),
    ensures
        state.marked(session, range) == state,
{
    assert(state.marked(session, range).cells =~= state.cells);
}

/// One cell more of a block of one row.
proof fn lemma_column_marked(state: Occupancy, session: Seq<u8>, block: CellRange, x: int)
    requires
        block.start_y == block.end_y,
        block.start_x <= x,
    ensures
        state.marked(session, columns_before(block, x + 1)) == ({
            let part: Occupancy = state.marked(session, columns_before(block, x));
            Occupancy {
                cells: part.cells.insert((x, block.end_y), session),
                locations: part.locations.insert(
                    session,
                    part.listed(session).push((x as u32, block.end_y as u32)),
                ),
                ..part
            }
        }),
{
    let shorter: CellRange = columns_before(block, x);
    let longer: CellRange = columns_before(block, x + 1);
    let part: Occupancy = state.marked(session, shorter);
    let whole: Occupancy = state.marked(session, longer);
    let y: int = block.end_y;
    assert(longer.rows_before(y).cell_list() =~= Seq::empty());
    assert(shorter.rows_before(y).cell_list() =~= Seq::empty());
    assert(longer.cell_list() =~= longer.row(y));
    assert(shorter.cell_list() =~= shorter.row(y));
    assert(longer.row(y) =~= shorter.row(y).push((x as u32, y as u32)));
    assert(whole.cells =~= part.cells.insert((x, y), session));
    assert(state.listed(session) + longer.row(y) =~= (state.listed(session) + shorter.row(
        y,
    )).push((x as u32, y as u32)));
    if shorter.empty() {
        assert(shorter.row(y) =~= Seq::empty());
        assert(state.listed(session) + shorter.row(y) =~= state.listed(session));
    }
    assert(whole.locations =~= part.locations.insert(
        session,
        part.listed(session).push((x as u32, y as u32)),
    ));
}

/// One row more of a block.
proof fn lemma_row_marked(state: Occupancy, session: Seq<u8>, range: CellRange, y: int)
    requires
        range.start_y <= y,
    ensures
        state.marked(session, range.rows_before(y + 1)) == state.marked(
            session,
            range.rows_before(y),
        ).marked(session, CellRange { start_y: y, end_y: y, ..range }),
{
    let above: CellRange = range.rows_before(y);
    let below: CellRange = range.rows_before(y + 1);
    let one: CellRange = CellRange { start_y: y, end_y: y, ..range };
    let part: Occupancy = state.marked(session, above);
    let whole: Occupancy = state.marked(session, below);
    let stepped: Occupancy = part.marked(session, one);
    lemma_rows_grow(range, y);
    assert(one.rows_before(y).cell_list() =~= Seq::empty());
    assert(one.cell_list() =~= one.row(y));
    assert(one.row(y) =~= range.row(y));
    assert(whole.cells =~= stepped.cells);
    if range.start_x <= range.end_x {
        if above.empty() {
            assert(above.cell_list() =~= Seq::empty());
            assert(state.listed(session) + below.cell_list() =~= state.listed(session) + one.row(
                y,
            ));
        } else {
            assert(state.listed(session) + below.cell_list() =~= (state.listed(session)
                + above.cell_list()) + one.row(y));
        }
        assert(whole.locations =~= stepped.locations);
    }
}

} // verus!
