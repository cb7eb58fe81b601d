//! What the operations on the floor do, cell by cell and entry by entry.

use crate::grid::{region_bounds, CellRange};
use crate::occupancy::{
    lists, rows_after, shape, with_region, with_regions, CurrentlyOccupiedDestinations, Occupancy,
};
use crate::region::{RegionView, ShapeErr, TargetRegionView};
use crate::reservation::{law_cell_count, law_choice_is_first, lemma_all_marked};
use crate::single::Single;
use vstd::prelude::*;

verus! {

/// What is on the floor: a cell is held by a session exactly where the row and the column exist
/// and name that session. The books and the cell size are those at hand.
pub proof fn law_floor_is_as_it_lies(floor: CurrentlyOccupiedDestinations, x: int, y: int)
    ensures
        floor@.cells.contains_key((x, y)) <==> 0 <= y < floor.floor_space@.len() && 0 <= x
            < floor.floor_space@[y]@.len() && floor.floor_space@[y]@[x] is Some,
        floor@.cells.contains_key((x, y)) ==> floor@.cells[(x, y)]
            == floor.floor_space@[y]@[x]->0.uuid@,
        floor@.locations == floor.session_to_location@,
        floor@.agents == floor.agent_to_session@,
        floor@.grid_size == floor.grid_size,
        shape(floor.floor_space@).len() == floor.floor_space@.len(),
        0 <= y < floor.floor_space@.len() ==> shape(floor.floor_space@)[y]
            == floor.floor_space@[y]@.len(),
{
}

/// A region with cells is free exactly where every one of its cells is vacant or held by the
/// session that does not count. Nothing outside its columns and rows plays a part.
pub proof fn law_free_iff_no_cell_is_held(
    state: Occupancy,
    region: RegionView,
    ignore: Option<Seq<u8>>,
    range: CellRange,
)
    requires
        region_bounds(region, state.grid_size) == Some(range),
    ensures
        state.region_free(region, ignore) == Ok::<bool, ShapeErr>(
            forall|x: int, y: int|
                #![trigger state.cells.contains_key((x, y))]
                range.start_x <= x && x <= range.end_x && range.start_y <= y && y <= range.end_y
                    && state.cells.contains_key((x, y)) ==> ignore == Some(state.cells[(x, y)]),
        ),
{
    let free: bool = forall|x: int, y: int|
        #![trigger state.cells.contains_key((x, y))]
        range.start_x <= x && x <= range.end_x && range.start_y <= y && y <= range.end_y
            && state.cells.contains_key((x, y)) ==> ignore == Some(state.cells[(x, y)]);
    if free {
        assert forall|cell: (int, int)|
            range.contains(cell) && #[trigger] state.cells.contains_key(cell) implies Some(
            state.cells[cell],
        ) == ignore by {
            assert(state.cells.contains_key((cell.0, cell.1)));
        }
    } else {
        let (x, y) = choose|x: int, y: int|
            #![trigger state.cells.contains_key((x, y))]
            range.start_x <= x && x <= range.end_x && range.start_y <= y && y <= range.end_y
                && state.cells.contains_key((x, y)) && ignore != Some(state.cells[(x, y)]);
        assert(range.contains((x, y)));
    }
}

/// Two floors with the same holders inside a region agree on whether it is free.
pub proof fn law_free_depends_on_own_cells_alone(
    a: Occupancy,
    b: Occupancy,
    region: RegionView,
    ignore: Option<Seq<u8>>,
)
    requires
        a.grid_size == b.grid_size,
        region_bounds(region, a.grid_size) matches Some(range) ==> forall|x: int, y: int|
            #![trigger a.cells.contains_key((x, y))]
            #![trigger b.cells.contains_key((x, y))]
            range.start_x <= x <= range.end_x && range.start_y <= y <= range.end_y ==> (
            a.cells.contains_key((x, y)) == b.cells.contains_key((x, y))) && (a.cells.contains_key(
                (x, y),
            ) ==> a.cells[(x, y)] == b.cells[(x, y)]),
    ensures
        a.region_free(region, ignore) == b.region_free(region, ignore),
{
    if let Some(range) = region_bounds(region, a.grid_size) {
        law_free_iff_no_cell_is_held(a, region, ignore, range);
        law_free_iff_no_cell_is_held(b, region, ignore, range);
    }
}

/// What is said of a region without cells: an unknown hint is an error, and so are fewer than two
/// coordinates; anything else is free.
pub proof fn law_region_without_cells(
    state: Occupancy,
    region: RegionView,
    ignore: Option<Seq<u8>>,
)
    requires
        region_bounds(region, state.grid_size) is None,
    ensures
        region.hint != 1 && region.hint != 2 ==> state.region_free(region, ignore) == Err::<
            bool,
            ShapeErr,
        >(ShapeErr::UnsupportedHint),
        (region.hint == 1 || region.hint == 2) && region.points.len() < 2 ==> state.region_free(
            region,
            ignore,
        ) == Err::<bool, ShapeErr>(ShapeErr::InvalidPoints),
        (region.hint == 1 || region.hint == 2) && region.points.len() >= 2 ==> state.region_free(
            region,
            ignore,
        ) == Ok::<bool, ShapeErr>(true),
{
}

/// The session that an agent holds by the books.
spec fn own(state: Occupancy, agent: Seq<char>) -> Option<Seq<u8>> {
    if state.agents.contains_key(agent) {
        Some(state.agents[agent])
    } else {
        None
    }
}

/// An agent gets the first alternative all of whose regions are free, apart from the cells of the
/// session that the books name for the agent; it gets none only where every alternative has a
/// region that is not.
pub proof fn law_first_free_alternative_is_granted(
    state: Occupancy,
    agent: Seq<char>,
    options: Seq<Seq<TargetRegionView>>,
    ignore: Option<Seq<u8>>,
    k: int,
)
    requires
        state.agents.contains_key(agent) ==> ignore == Some(state.agents[agent]),
        !state.agents.contains_key(agent) ==> ignore is None,
    ensures
        state.choice(agent, options) matches Some(i) ==> 0 <= i < options.len() && (forall|j: int|
            0 <= j < options[i].len() ==> #[trigger] state.region_free(
                options[i][j].region,
                ignore,
            ) == Ok::<bool, ShapeErr>(true)),
        0 <= k < options.len() && (state.choice(agent, options) is None || k < state.choice(
            agent,
            options,
        )->0) ==> exists|j: int|
            0 <= j < options[k].len() && #[trigger] state.region_free(options[k][j].region, ignore)
                != Ok::<bool, ShapeErr>(true),
{
    law_choice_is_first(state, agent, options);
    assert(ignore == state.session_of(agent));
    if 0 <= k < options.len() && (state.choice(agent, options) is None || k < state.choice(
        agent,
        options,
    )->0) {
        assert(!state.available(options[k], ignore));
    }
}

/// A request for a vacant block is granted: with an alternative all of whose cells are vacant, or
/// held by the agent itself, something is granted, and nothing that comes after it in the order.
#[verifier::rlimit(50)]
pub proof fn law_vacant_alternative_is_enough(
    state: Occupancy,
    agent: Seq<char>,
    options: Seq<Seq<TargetRegionView>>,
    k: int,
)
    requires
        0 <= k < options.len(),
        forall|j: int|
            0 <= j < options[k].len() ==> (#[trigger] region_bounds(
                options[k][j].region,
                state.grid_size,
            )) is Some,
        forall|j: int, x: int, y: int|
            #![trigger region_bounds(options[k][j].region, state.grid_size), state.cells.contains_key((x, y))]
            0 <= j < options[k].len() && state.cells.contains_key((x, y)) && region_bounds(
                options[k][j].region,
                state.grid_size,
            )->0.start_x <= x <= region_bounds(options[k][j].region, state.grid_size)->0.end_x
                && region_bounds(options[k][j].region, state.grid_size)->0.start_y <= y
                <= region_bounds(options[k][j].region, state.grid_size)->0.end_y
                ==> state.agents.contains_key(agent) && state.cells[(x, y)]
                == state.agents[agent],
    ensures
        state.choice(agent, options) matches Some(i) && 0 <= i <= k,
{
    let ignore: Option<Seq<u8>> = own(state, agent);
    law_first_free_alternative_is_granted(state, agent, options, ignore, k);
    assert forall|j: int| 0 <= j < options[k].len() implies #[trigger] state.region_free(
        options[k][j].region,
        ignore,
    ) == Ok::<bool, ShapeErr>(true) by {
        let range: CellRange = region_bounds(options[k][j].region, state.grid_size)->0;
        law_free_iff_no_cell_is_held(state, options[k][j].region, ignore, range);
    }
}

/// What marking a region does: its cells go to the session and no other cell changes; they are
/// entered for the session behind what it had, row by row and in each row from left to right; and
/// nothing else changes.
#[verifier::rlimit(50)]
pub proof fn law_mark_in_detail(
    state: Occupancy,
    session: Seq<u8>,
    region: RegionView,
    range: CellRange,
    x: int,
    y: int,
)
    requires
        region_bounds(region, state.grid_size) == Some(range),
    ensures
        ({
            let after: Occupancy = state.region_marked(session, region);
            let inside: bool = range.start_x <= x <= range.end_x && range.start_y <= y
                <= range.end_y;
            let had: Seq<(u32, u32)> = if state.locations.contains_key(session) {
                state.locations[session]
            } else {
                Seq::empty()
            };
            let w: int = range.end_x - range.start_x + 1;
            let h: int = range.end_y - range.start_y + 1;
            &&& inside ==> after.cells.contains_key((x, y)) && after.cells[(x, y)] == session
            &&& !inside ==> after.cells.contains_key((x, y)) == state.cells.contains_key((x, y))
            &&& !inside && state.cells.contains_key((x, y)) ==> after.cells[(x, y)]
                == state.cells[(x, y)]
            &&& after.agents == state.agents
            &&& after.grid_size == state.grid_size
            &&& w <= 0 || h <= 0 ==> after.locations == state.locations
            &&& w > 0 && h > 0 ==> {
                &&& after.locations.contains_key(session)
                &&& after.locations.remove(session) == state.locations.remove(session)
                &&& after.locations[session].len() == had.len() + w * h
                &&& after.locations[session].take(had.len() as int) == had
                &&& inside ==> 0 <= (y - range.start_y) * w + (x - range.start_x) < w * h
                    && after.locations[session][had.len() + (y - range.start_y) * w + (x
                    - range.start_x)] == (x as u32, y as u32)
            }
        }),
{
    let after: Occupancy = state.region_marked(session, region);
    let had: Seq<(u32, u32)> = state.listed(session);
    let w: int = range.end_x - range.start_x + 1;
    let h: int = range.end_y - range.start_y + 1;
    if w > 0 && h > 0 {
        law_cell_count(range);
        lemma_row_major(range, x, y);
        assert(after.locations[session] == had + range.cell_list());
        assert(after.locations[session].take(had.len() as int) =~= had);
        assert(after.locations.remove(session) =~= state.locations.remove(session));
        if range.start_x <= x <= range.end_x && range.start_y <= y <= range.end_y {
            let i: int = (y - range.start_y) * w + (x - range.start_x);
            assert((had + range.cell_list())[had.len() + i] == range.cell_list()[i]);
        }
    }
}

/// Marking a region without cells changes nothing.
pub proof fn law_mark_without_cells(state: Occupancy, session: Seq<u8>, region: RegionView)
    requires
        region_bounds(region, state.grid_size) is None,
    ensures
        state.region_marked(session, region) == state,
{
}

/// Where a cell stands in the list of a block.
proof fn lemma_row_major(range: CellRange, x: int, y: int)
    requires
        range.start_x <= range.end_x,
        range.start_y <= range.end_y + 1,
    ensures
        range.start_x <= x <= range.end_x && range.start_y <= y <= range.end_y ==> ({
            let w: int = range.end_x - range.start_x + 1;
            let i: int = (y - range.start_y) * w + (x - range.start_x);
            0 <= i < w * (range.end_y - range.start_y + 1) && range.cell_list().len() == w * (
            range.end_y - range.start_y + 1) && range.cell_list()[i] == (x as u32, y as u32)
        }),
    decreases range.end_y - range.start_y + 1,
{
    let w: int = range.end_x - range.start_x + 1;
    let h: int = range.end_y - range.start_y + 1;
    law_cell_count(range);
    if h > 0 {
        let above: CellRange = range.rows_before(range.end_y);
        lemma_row_major(above, x, y);
        law_cell_count(above);
        assert(w * h == w * (h - 1) + w) by (nonlinear_arith);
        if range.start_x <= x <= range.end_x && range.start_y <= y <= range.end_y {
            let i: int = (y - range.start_y) * w + (x - range.start_x);
            if y == range.end_y {
                assert((h - 1) * w == w * (h - 1)) by (nonlinear_arith);
                assert(0 <= w * (h - 1)) by (nonlinear_arith)
                    requires
                        w > 0,
                        h > 0,
                ;
                assert(range.cell_list()[i] == range.row(range.end_y)[x - range.start_x]);
            }
        }
    }
}

/// What clearing a session does: every cell entered for it is vacant, every other cell is as it
/// was, the session is struck out, and nothing else changes.
#[verifier::rlimit(50)]
pub proof fn law_clear_in_detail(state: Occupancy, session: Seq<u8>, x: int, y: int)
    ensures
        ({
            let after: Occupancy = state.cleared(session);
            let entered: bool = state.locations.contains_key(session) && exists|i: int|
                0 <= i < state.locations[session].len() && (#[trigger] state.locations[session][i])
                    == (x as u32, y as u32) && 0 <= x <= u32::MAX && 0 <= y <= u32::MAX;
            &&& entered ==> !after.cells.contains_key((x, y))
            &&& !entered ==> after.cells.contains_key((x, y)) == state.cells.contains_key((x, y))
            &&& !entered && state.cells.contains_key((x, y)) ==> after.cells[(x, y)]
                == state.cells[(x, y)]
            &&& after.locations == state.locations.remove(session)
            &&& after.agents == state.agents
            &&& after.grid_size == state.grid_size
        }),
{
    let list: Seq<(u32, u32)> = state.listed(session);
    if lists(list, (x, y)) {
        let i: int = choose|i: int|
            0 <= i < list.len() && (#[trigger] list[i]).0 == x && list[i].1 == y;
        assert(list[i] == (x as u32, y as u32));
    }
    if state.locations.contains_key(session) && exists|i: int|
        0 <= i < state.locations[session].len() && (#[trigger] state.locations[session][i]) == (
            x as u32,
            y as u32,
        ) && 0 <= x <= u32::MAX && 0 <= y <= u32::MAX {
        let i: int = choose|i: int|
            0 <= i < state.locations[session].len() && (#[trigger] state.locations[session][i])
                == (x as u32, y as u32) && 0 <= x <= u32::MAX && 0 <= y <= u32::MAX;
        assert(list[i].0 == x && list[i].1 == y);
    }
}

/// What a request does to every cell, to the agents and to the cell size. Refused, it changes
/// nothing at all. Granted, the cells of all the regions go to the session; of the others, those
/// entered for the agent's former session are vacant and all the rest are as they were; and the
/// books name the session for the agent, and for the other agents what they named before.
#[verifier::rlimit(50)]
pub proof fn law_request_in_detail(
    state: Occupancy,
    agent: Seq<char>,
    options: Seq<Seq<TargetRegionView>>,
    session: Seq<u8>,
    x: int,
    y: int,
)
    ensures
        state.choice(agent, options) is None ==> state.reserved(agent, options, session) == state,
        state.choice(agent, options) matches Some(i) ==> ({
            let after: Occupancy = state.reserved(agent, options, session);
            let inside: bool = exists|j: int|
                0 <= j < options[i].len() && ((#[trigger] region_bounds(
                    options[i][j].region,
                    state.grid_size,
                )) matches Some(range) && range.start_x <= x <= range.end_x && range.start_y <= y
                    <= range.end_y);
            let given_up: bool = state.agents.contains_key(agent)
                && state.locations.contains_key(state.agents[agent]) && exists|k: int|
                0 <= k < state.locations[state.agents[agent]].len() && (
                #[trigger] state.locations[state.agents[agent]][k]) == (x as u32, y as u32) && 0
                    <= x <= u32::MAX && 0 <= y <= u32::MAX;
            &&& inside ==> after.cells.contains_key((x, y)) && after.cells[(x, y)] == session
            &&& !inside && given_up ==> !after.cells.contains_key((x, y))
            &&& !inside && !given_up ==> after.cells.contains_key((x, y))
                == state.cells.contains_key((x, y))
            &&& !inside && !given_up && state.cells.contains_key((x, y)) ==> after.cells[(x, y)]
                == state.cells[(x, y)]
            &&& after.agents == state.agents.insert(agent, session)
            &&& after.grid_size == state.grid_size
        }),
{
    if let Some(i) = state.choice(agent, options) {
        let base: Occupancy = state.vacated(agent);
        if state.agents.contains_key(agent) {
            law_clear_in_detail(state, state.agents[agent], x, y);
        }
        lemma_all_marked(base, session, options[i], options[i].len());
        let moved: Occupancy = base.all_marked(session, options[i], options[i].len());
    }
}

/// What a granted request does to the books: the agent's former session is struck out, every
/// other session but the new one keeps its list, and the new one has what it had, unless it is
/// the former one, and behind that the cells of the regions, one region after the other.
#[verifier::rlimit(50)]
pub proof fn law_request_and_the_books(
    state: Occupancy,
    agent: Seq<char>,
    options: Seq<Seq<TargetRegionView>>,
    session: Seq<u8>,
    other: Seq<u8>,
)
    ensures
        state.choice(agent, options) matches Some(i) ==> ({
            let after: Occupancy = state.reserved(agent, options, session);
            let former: bool = state.agents.contains_key(agent) && state.agents[agent] == other;
            &&& other != session && former ==> !after.locations.contains_key(other)
            &&& other != session && !former ==> after.locations.contains_key(other)
                == state.locations.contains_key(other)
            &&& other != session && !former && state.locations.contains_key(other)
                ==> after.locations[other] == state.locations[other]
            &&& other == session ==> after.listed(other) == (if former {
                Seq::<(u32, u32)>::empty()
            } else {
                state.listed(other)
            }) + joined_lists(options[i], state.grid_size, options[i].len())
        }),
{
    if let Some(i) = state.choice(agent, options) {
        let base: Occupancy = state.vacated(agent);
        lemma_marked_books(base, session, options[i], options[i].len(), other);
        let after: Occupancy = state.reserved(agent, options, session);
        let moved: Occupancy = base.all_marked(session, options[i], options[i].len());
        assert(after.listed(other) == moved.listed(other));
    }
}

/// The cells of the first `n` regions, one region after the other, each row by row.
pub open spec fn joined_lists(
    regions: Seq<TargetRegionView>,
    cell_size: Single,
    n: nat,
) -> Seq<(u32, u32)>
    decreases n,
{
    if n == 0 {
        Seq::empty()
    } else {
        joined_lists(regions, cell_size, (n - 1) as nat) + match region_bounds(
            regions[n - 1].region,
            cell_size,
        ) {
            Some(range) => if range.empty() {
                Seq::empty()
            } else {
                range.cell_list()
            },
            None => Seq::empty(),
        }
    }
}

proof fn lemma_marked_books(
    state: Occupancy,
    session: Seq<u8>,
    regions: Seq<TargetRegionView>,
    n: nat,
    other: Seq<u8>,
)
    requires
        n <= regions.len(),
    ensures
        ({
            let after: Occupancy = state.all_marked(session, regions, n);
            &&& after.grid_size == state.grid_size
            &&& other != session ==> after.locations.contains_key(other)
                == state.locations.contains_key(other)
            &&& other != session && state.locations.contains_key(other) ==> after.locations[other]
                == state.locations[other]
            &&& other == session ==> after.listed(other) == state.listed(other) + joined_lists(
                regions,
                state.grid_size,
                n,
            )
        }),
    decreases n,
{
    if n == 0 {
        assert(state.listed(other) + Seq::<(u32, u32)>::empty() =~= state.listed(other));
    } else {
        let k: nat = (n - 1) as nat;
        lemma_marked_books(state, session, regions, k, other);
        let part: Occupancy = state.all_marked(session, regions, k);
        let so_far: Seq<(u32, u32)> = joined_lists(regions, state.grid_size, k);
        let whole: Seq<(u32, u32)> = joined_lists(regions, state.grid_size, n);
        match region_bounds(regions[k as int].region, state.grid_size) {
            Some(range) => {
                if range.empty() {
                    assert(whole =~= so_far);
                } else {
                    assert((state.listed(other) + so_far) + range.cell_list() =~= state.listed(
                        other,
                    ) + whole);
                }
            },
            None => {
                assert(whole =~= so_far);
            },
        }
    }
}

/// What making room for a region does to the rows: there are as many as it takes to reach its last
/// row, at least as many as before; its own rows reach its last column, and are otherwise as long
/// as before; all other rows are as long as before, and new ones empty.
pub proof fn law_room_in_detail(rows: Seq<nat>, region: RegionView, cell_size: Single, y: int)
    ensures
        region_bounds(region, cell_size) is None ==> with_region(rows, region, cell_size) == rows,
        region_bounds(region, cell_size) matches Some(range) ==> ({
            let after: Seq<nat> = with_region(rows, region, cell_size);
            let before: int = if 0 <= y < rows.len() {
                rows[y] as int
            } else {
                0
            };
            &&& after.len() >= rows.len()
            &&& after.len() > range.end_y
            &&& after.len() == rows.len() || after.len() == range.end_y + 1
            &&& 0 <= y < after.len() && range.start_y <= y <= range.end_y ==> after[y] >= before
                && after[y] > range.end_x && (after[y] == before || after[y] == range.end_x + 1)
            &&& 0 <= y < after.len() && !(range.start_y <= y <= range.end_y) ==> after[y] == before
        }),
{
}

/// The rows after a request: as before where it is refused, and otherwise with room for each
/// region of what is granted, one after the other.
pub proof fn law_rows_after_request(
    rows: Seq<nat>,
    state: Occupancy,
    agent: Seq<char>,
    options: Seq<Seq<TargetRegionView>>,
    n: nat,
)
    ensures
        state.choice(agent, options) is None ==> rows_after(rows, state, agent, options) == rows,
        state.choice(agent, options) matches Some(i) ==> {
            &&& rows_after(rows, state, agent, options) == with_regions(
                rows,
                options[i],
                state.grid_size,
                options[i].len(),
            )
            &&& with_regions(rows, options[i], state.grid_size, 0) == rows
            &&& with_regions(rows, options[i], state.grid_size, n + 1) == with_region(
                with_regions(rows, options[i], state.grid_size, n),
                options[i][n as int].region,
                state.grid_size,
            )
        },
{
}

} // verus!
