//! What holds of reservations as a whole: the books agree with the floor, a grant is exclusive,
//! and nobody else's cells are touched.

use crate::grid::{region_bounds, CellRange};
use crate::occupancy::{lists, Occupancy};
use crate::region::{RegionView, ShapeErr, TargetRegionView};
use crate::single::Single;
use vstd::prelude::*;

verus! {

/// The books agree with the floor: a cell is entered for a session exactly where that session
/// holds it.
pub open spec fn consistent(state: Occupancy) -> bool {
    forall|session: Seq<u8>, cell: (int, int)|
        #![trigger lists(state.listed(session), cell)]
        lists(state.listed(session), cell) <==> state.cells.contains_key(cell)
            && state.cells[cell] == session
}

/// The cells of the regions have 32-bit coordinates.
pub open spec fn regions_narrow(
    regions: Seq<TargetRegionView>,
    cell_size: Single,
) -> bool {
    forall|i: int|
        0 <= i < regions.len() ==> ((#[trigger] region_bounds(
            regions[i].region,
            cell_size,
        )) matches Some(range) ==> range.narrow())
}

/// One of the first `n` regions covers the cell.
pub open spec fn covered(
    regions: Seq<TargetRegionView>,
    cell_size: Single,
    n: nat,
    cell: (int, int),
) -> bool {
    exists|i: int|
        0 <= i < n && ((#[trigger] region_bounds(regions[i].region, cell_size)) matches Some(range)
            && range.contains(cell))
}

/// Joining two lists joins the cells that they name.
proof fn lemma_lists_join(a: Seq<(u32, u32)>, b: Seq<(u32, u32)>, cell: (int, int))
    ensures
        lists(a + b, cell) <==> lists(a, cell) || lists(b, cell),
{
    let both: Seq<(u32, u32)> = a + b;
    if lists(a, cell) {
        let i: int = choose|i: int|
            0 <= i < a.len() && (#[trigger] a[i]).0 == cell.0 && a[i].1 == cell.1;
        assert(both[i] == a[i]);
    }
    if lists(b, cell) {
        let i: int = choose|i: int|
            0 <= i < b.len() && (#[trigger] b[i]).0 == cell.0 && b[i].1 == cell.1;
        assert(both[a.len() + i] == b[i]);
    }
    if lists(both, cell) {
        let i: int = choose|i: int|
            0 <= i < both.len() && (#[trigger] both[i]).0 == cell.0 && both[i].1 == cell.1;
        if i < a.len() {
            assert(a[i] == both[i]);
        } else {
            assert(b[i - a.len()] == both[i]);
        }
    }
}

/// The list of a block names the cells of the block and no others.
pub proof fn lemma_cell_list(range: CellRange, cell: (int, int))
    requires
        range.narrow(),
    ensures
        lists(range.cell_list(), cell) <==> range.contains(cell),
    decreases range.end_y - range.start_y + 1,
{
    if range.start_y <= range.end_y {
        let above: CellRange = range.rows_before(range.end_y);
        let row: Seq<(u32, u32)> = range.row(range.end_y);
        lemma_cell_list(above, cell);
        lemma_lists_join(above.cell_list(), row, cell);
        if cell.1 == range.end_y && range.start_x <= cell.0 <= range.end_x {
            let i: int = cell.0 - range.start_x;
            assert(row[i].0 == cell.0 && row[i].1 == cell.1);
        }
        if lists(row, cell) {
            let i: int = choose|i: int|
                0 <= i < row.len() && (#[trigger] row[i]).0 == cell.0 && row[i].1 == cell.1;
            assert(row[i].0 == range.start_x + i);
        }
    }
}

/// A block lists as many cells as it has: its width times its height.
pub proof fn law_cell_count(range: CellRange)
    requires
        range.start_y <= range.end_y + 1,
    ensures
        range.cell_list().len() == range.width() * (range.end_y - range.start_y + 1),
    decreases range.end_y - range.start_y + 1,
{
    let w: int = range.width() as int;
    let h: int = range.end_y - range.start_y + 1;
    if h > 0 {
        law_cell_count(range.rows_before(range.end_y));
        assert(w * h == w * (h - 1) + w) by (nonlinear_arith);
    } else {
        assert(w * h == 0) by (nonlinear_arith)
            requires
                h == 0,
        ;
    }
}

/// A region with cells is taken once it is marked, except for the session that marked it.
pub proof fn law_marked_region_is_taken(
    state: Occupancy,
    session: Seq<u8>,
    region: RegionView,
    ignore: Option<Seq<u8>>,
)
    requires
        region_bounds(region, state.grid_size) matches Some(range) && !range.empty(),
    ensures
        state.region_marked(session, region).region_free(region, ignore) == Ok::<bool, ShapeErr>(
            ignore == Some(session),
        ),
{
    let range: CellRange = region_bounds(region, state.grid_size)->0;
    let after: Occupancy = state.region_marked(session, region);
    let corner: (int, int) = (range.start_x, range.start_y);
    assert(range.contains(corner));
    assert(after.cells.contains_key(corner) && after.cells[corner] == session);
    assert forall|cell: (int, int)|
        range.contains(cell) && #[trigger] after.cells.contains_key(cell) implies after.cells[cell]
        == session by {}
}

/// Clearing a session gives back the floor and the books as they were before its first region
/// was marked, where that region was vacant.
pub proof fn law_clear_undoes_mark(state: Occupancy, session: Seq<u8>, region: RegionView)
    requires
        !state.locations.contains_key(session),
        region_bounds(region, state.grid_size) matches Some(range) ==> range.narrow()
            && state.block_free(range, None),
    ensures
        state.region_marked(session, region).cleared(session) == state,
{
    let marked: Occupancy = state.region_marked(session, region);
    let after: Occupancy = marked.cleared(session);
    match region_bounds(region, state.grid_size) {
        Some(range) => {
            assert forall|cell: (int, int)| lists(marked.listed(session), cell)
                == range.contains(cell) by {
                lemma_cell_list(range, cell);
                if !range.empty() {
                    assert(state.listed(session) + range.cell_list() =~= range.cell_list());
                }
            }
            assert(after.cells =~= state.cells);
            assert(after.locations =~= state.locations);
        },
        None => {
            assert(after.cells =~= state.cells);
            assert(after.locations =~= state.locations);
        },
    }
}

/// An empty floor with empty books is consistent.
pub proof fn law_empty_is_consistent(state: Occupancy)
    requires
        state.cells == Map::<(int, int), Seq<u8>>::empty(),
        state.locations == Map::<Seq<u8>, Seq<(u32, u32)>>::empty(),
    ensures
        consistent(state),
{
}

/// Clearing a session keeps the books in agreement with the floor, and leaves the session
/// without a cell.
pub proof fn law_clear_keeps_consistent(state: Occupancy, session: Seq<u8>)
    requires
        consistent(state),
    ensures
        consistent(state.cleared(session)),
        forall|cell: (int, int)|
            #![trigger state.cleared(session).cells.contains_key(cell)]
            state.cleared(session).cells.contains_key(cell) <==> state.cells.contains_key(cell)
                && state.cells[cell] != session,
{
    let after: Occupancy = state.cleared(session);
    assert forall|cell: (int, int)|
        #![trigger after.cells.contains_key(cell)]
        after.cells.contains_key(cell) <==> state.cells.contains_key(cell) && state.cells[cell]
            != session by {
        assert(lists(state.listed(session), cell) <==> state.cells.contains_key(cell)
            && state.cells[cell] == session);
    }
    assert forall|other: Seq<u8>, cell: (int, int)|
        #![trigger lists(after.listed(other), cell)]
        lists(after.listed(other), cell) <==> after.cells.contains_key(cell) && after.cells[cell]
            == other by {
        assert(lists(state.listed(other), cell) <==> state.cells.contains_key(cell)
            && state.cells[cell] == other);
        if other != session {
            assert(after.listed(other) == state.listed(other));
        }
    }
}

/// Marking a block in which no other session holds a cell keeps the books in agreement with the
/// floor.
proof fn lemma_mark_keeps_consistent(state: Occupancy, session: Seq<u8>, range: CellRange)
    requires
        consistent(state),
        range.narrow(),
        state.block_free(range, Some(session)),
    ensures
        consistent(state.marked(session, range)),
{
    let after: Occupancy = state.marked(session, range);
    assert forall|other: Seq<u8>, cell: (int, int)|
        #![trigger lists(after.listed(other), cell)]
        lists(after.listed(other), cell) <==> after.cells.contains_key(cell) && after.cells[cell]
            == other by {
        assert(lists(state.listed(other), cell) <==> state.cells.contains_key(cell)
            && state.cells[cell] == other);
        if range.contains(cell) && state.cells.contains_key(cell) {
            assert(state.cells[cell] == session);
        }
        if other == session {
            lemma_cell_list(range, cell);
            if !range.empty() {
                lemma_lists_join(state.listed(session), range.cell_list(), cell);
            }
        } else {
            assert(after.listed(other) == state.listed(other));
        }
    }
}

/// Marking regions one after the other: which cells are held afterwards, and by whom.
pub proof fn lemma_all_marked(
    state: Occupancy,
    session: Seq<u8>,
    regions: Seq<TargetRegionView>,
    n: nat,
)
    requires
        n <= regions.len(),
    ensures
        state.all_marked(session, regions, n).grid_size == state.grid_size,
        state.all_marked(session, regions, n).agents == state.agents,
        forall|cell: (int, int)|
            #![trigger state.all_marked(session, regions, n).cells.contains_key(cell)]
            state.all_marked(session, regions, n).cells.contains_key(cell) <==> covered(
                regions,
                state.grid_size,
                n,
                cell,
            ) || state.cells.contains_key(cell),
        forall|cell: (int, int)|
            #![trigger state.all_marked(session, regions, n).cells[cell]]
            state.all_marked(session, regions, n).cells.contains_key(cell) ==> state.all_marked(
                session,
                regions,
                n,
            ).cells[cell] == if covered(regions, state.grid_size, n, cell) {
                session
            } else {
                state.cells[cell]
            },
    decreases n,
{
    if n > 0 {
        let k: nat = (n - 1) as nat;
        let part: Occupancy = state.all_marked(session, regions, k);
        let whole: Occupancy = state.all_marked(session, regions, n);
        let last: Option<CellRange> = region_bounds(regions[k as int].region, state.grid_size);
        lemma_all_marked(state, session, regions, k);
        assert forall|cell: (int, int)| #[trigger] covered(regions, state.grid_size, n, cell) <==> (
        covered(regions, state.grid_size, k, cell) || (last matches Some(range) && range.contains(
            cell,
        ))) by {
            if covered(regions, state.grid_size, n, cell) {
                let i: int = choose|i: int|
                    0 <= i < n && ((#[trigger] region_bounds(
                        regions[i].region,
                        state.grid_size,
                    )) matches Some(range) && range.contains(cell));
                if i < k {
                    assert(covered(regions, state.grid_size, k, cell));
                }
            }
            if covered(regions, state.grid_size, k, cell) {
                let i: int = choose|i: int|
                    0 <= i < k && ((#[trigger] region_bounds(
                        regions[i].region,
                        state.grid_size,
                    )) matches Some(range) && range.contains(cell));
                assert(0 <= i < n);
            }
        }
        assert forall|cell: (int, int)|
            #![trigger whole.cells.contains_key(cell)]
            whole.cells.contains_key(cell) <==> covered(regions, state.grid_size, n, cell)
                || state.cells.contains_key(cell) by {
            assert(part.cells.contains_key(cell) <==> covered(regions, state.grid_size, k, cell)
                || state.cells.contains_key(cell));
        }
        assert forall|cell: (int, int)|
            #![trigger whole.cells[cell]]
            whole.cells.contains_key(cell) implies whole.cells[cell] == if covered(
            regions,
            state.grid_size,
            n,
            cell,
        ) {
            session
        } else {
            state.cells[cell]
        } by {
            assert(part.cells.contains_key(cell) ==> part.cells[cell] == if covered(
                regions,
                state.grid_size,
                k,
                cell,
            ) {
                session
            } else {
                state.cells[cell]
            });
            assert(part.cells.contains_key(cell) <==> covered(regions, state.grid_size, k, cell)
                || state.cells.contains_key(cell));
        }
    }
}

/// The alternative that is chosen is free, and none before it is.
pub proof fn law_choice_is_first(
    state: Occupancy,
    agent: Seq<char>,
    options: Seq<Seq<TargetRegionView>>,
)
    ensures
        match state.choice(agent, options) {
            Some(i) => 0 <= i < options.len() && state.available(
                options[i],
                state.session_of(agent),
            ) && forall|j: int|
                0 <= j < i ==> !#[trigger] state.available(options[j], state.session_of(agent)),
            None => forall|j: int|
                0 <= j < options.len() ==> !#[trigger] state.available(
                    options[j],
                    state.session_of(agent),
                ),
        },
{
    lemma_first_available(state, options, state.session_of(agent), 0);
}

proof fn lemma_first_available(
    state: Occupancy,
    options: Seq<Seq<TargetRegionView>>,
    ignore: Option<Seq<u8>>,
    from: int,
)
    requires
        0 <= from,
    ensures
        match state.first_available(options, ignore, from) {
            Some(i) => from <= i < options.len() && state.available(options[i], ignore)
                && forall|j: int|
                from <= j < i ==> !#[trigger] state.available(options[j], ignore),
            None => forall|j: int|
                from <= j < options.len() ==> !#[trigger] state.available(options[j], ignore),
        },
    decreases options.len() - from,
{
    if from < options.len() && !state.available(options[from], ignore) {
        lemma_first_available(state, options, ignore, from + 1);
    }
}

/// Once an agent has given up what it held, nobody holds a cell of the regions that are free for
/// it.
proof fn lemma_vacated_blocks(state: Occupancy, agent: Seq<char>, regions: Seq<TargetRegionView>)
    requires
        consistent(state),
        state.available(regions, state.session_of(agent)),
    ensures
        consistent(state.vacated(agent)),
        forall|cell: (int, int)|
            covered(regions, state.grid_size, regions.len(), cell)
                ==> !#[trigger] state.vacated(agent).cells.contains_key(cell),
{
    let base: Occupancy = state.vacated(agent);
    match state.session_of(agent) {
        Some(own) => {
            law_clear_keeps_consistent(state, own);
        },
        None => {},
    }
    assert forall|cell: (int, int)|
        covered(regions, state.grid_size, regions.len(), cell) implies !#[trigger] base.cells.contains_key(
        cell,
    ) by {
        let i: int = choose|i: int|
            0 <= i < regions.len() && ((#[trigger] region_bounds(
                regions[i].region,
                state.grid_size,
            )) matches Some(range) && range.contains(cell));
        assert(state.region_free(regions[i].region, state.session_of(agent)) == Ok::<
            bool,
            ShapeErr,
        >(true));
        if state.cells.contains_key(cell) {
            assert(Some(state.cells[cell]) == state.session_of(agent));
        }
    }
}

/// Marking regions in which no other session holds a cell keeps the books in agreement with the
/// floor.
proof fn lemma_all_marked_consistent(
    state: Occupancy,
    session: Seq<u8>,
    regions: Seq<TargetRegionView>,
    n: nat,
)
    requires
        n <= regions.len(),
        consistent(state),
        regions_narrow(regions, state.grid_size),
        forall|cell: (int, int)|
            covered(regions, state.grid_size, regions.len(), cell)
                ==> !#[trigger] state.cells.contains_key(cell),
    ensures
        consistent(state.all_marked(session, regions, n)),
    decreases n,
{
    if n > 0 {
        let k: nat = (n - 1) as nat;
        let part: Occupancy = state.all_marked(session, regions, k);
        lemma_all_marked_consistent(state, session, regions, k);
        lemma_all_marked(state, session, regions, k);
        match region_bounds(regions[k as int].region, state.grid_size) {
            Some(range) => {
                assert forall|cell: (int, int)|
                    range.contains(cell) && #[trigger] part.cells.contains_key(cell) implies Some(
                    part.cells[cell],
                ) == Some(session) by {
                    assert(covered(regions, state.grid_size, regions.len(), cell));
                    assert(!state.cells.contains_key(cell));
                }
                lemma_mark_keeps_consistent(part, session, range);
            },
            None => {},
        }
    }
}

/// A request, granted or refused, keeps the books in agreement with the floor.
pub proof fn law_reserve_keeps_consistent(
    state: Occupancy,
    agent: Seq<char>,
    options: Seq<Seq<TargetRegionView>>,
    session: Seq<u8>,
)
    requires
        consistent(state),
        state.choice(agent, options) matches Some(i) ==> regions_narrow(
            options[i],
            state.grid_size,
        ),
    ensures
        consistent(state.reserved(agent, options, session)),
{
    law_choice_is_first(state, agent, options);
    match state.choice(agent, options) {
        Some(i) => {
            let regions: Seq<TargetRegionView> = options[i];
            let base: Occupancy = state.vacated(agent);
            lemma_vacated_blocks(state, agent, regions);
            lemma_all_marked_consistent(base, session, regions, regions.len());
            let moved: Occupancy = base.all_marked(session, regions, regions.len());
            let after: Occupancy = state.granted(agent, regions, session);
            assert forall|other: Seq<u8>, cell: (int, int)|
                #![trigger lists(after.listed(other), cell)]
                lists(after.listed(other), cell) <==> after.cells.contains_key(cell)
                    && after.cells[cell] == other by {
                assert(after.listed(other) == moved.listed(other));
                assert(lists(moved.listed(other), cell) <==> moved.cells.contains_key(cell)
                    && moved.cells[cell] == other);
            }
        },
        None => {},
    }
}

/// Every session that holds a cell is the session of some agent.
pub open spec fn owned(state: Occupancy) -> bool {
    forall|cell: (int, int)| #[trigger]
        state.cells.contains_key(cell) ==> exists|agent: Seq<char>|
            #[trigger] state.session_of(agent) == Some(state.cells[cell])
}

/// No cell is left behind by a request, granted or refused: whatever session holds a cell
/// afterwards is the session of some agent.
pub proof fn law_reserve_keeps_owned(
    state: Occupancy,
    agent: Seq<char>,
    options: Seq<Seq<TargetRegionView>>,
    session: Seq<u8>,
)
    requires
        consistent(state),
        owned(state),
    ensures
        owned(state.reserved(agent, options, session)),
{
    let after: Occupancy = state.reserved(agent, options, session);
    match state.choice(agent, options) {
        Some(i) => {
            assert forall|cell: (int, int)| #[trigger] after.cells.contains_key(cell) implies exists|
                who: Seq<char>,
            | #[trigger] after.session_of(who) == Some(after.cells[cell]) by {
                law_grant_cell_by_cell(state, agent, options, session, cell);
                if covered(options[i], state.grid_size, options[i].len(), cell) {
                    law_one_session_per_agent(state, agent, options, session, agent);
                    assert(after.session_of(agent) == Some(after.cells[cell]));
                } else {
                    let who: Seq<char> = choose|who: Seq<char>| #[trigger]
                        state.session_of(who) == Some(state.cells[cell]);
                    assert(state.session_of(who) == Some(state.cells[cell]));
                    law_one_session_per_agent(state, agent, options, session, who);
                    assert(after.session_of(who) == Some(after.cells[cell]));
                }
            }
        },
        None => {},
    }
}

/// A request of an agent, with its alternatives in the order in which they are tried.
pub struct Request {
    pub agent: Seq<char>,
    pub options: Seq<Seq<TargetRegionView>>,
    pub session: Seq<u8>,
}

/// What comes of a series of requests.
pub open spec fn served(state: Occupancy, requests: Seq<Request>) -> Occupancy
    decreases requests.len(),
{
    if requests.len() == 0 {
        state
    } else {
        let last: Request = requests.last();
        served(state, requests.drop_last()).reserved(last.agent, last.options, last.session)
    }
}

/// All that is granted in a series of requests has cells with 32-bit coordinates.
pub open spec fn grants_narrow(state: Occupancy, requests: Seq<Request>) -> bool
    decreases requests.len(),
{
    requests.len() > 0 ==> {
        let before: Occupancy = served(state, requests.drop_last());
        let last: Request = requests.last();
        &&& grants_narrow(state, requests.drop_last())
        &&& before.choice(last.agent, last.options) matches Some(i) ==> regions_narrow(
            last.options[i],
            before.grid_size,
        )
    }
}

/// Whatever requests an empty floor has seen, the books agree with it, and every session that
/// holds a cell is the session of some agent.
pub proof fn law_requests_leave_nothing_behind(state: Occupancy, requests: Seq<Request>)
    requires
        state.cells == Map::<(int, int), Seq<u8>>::empty(),
        state.locations == Map::<Seq<u8>, Seq<(u32, u32)>>::empty(),
        grants_narrow(state, requests),
    ensures
        consistent(served(state, requests)),
        owned(served(state, requests)),
    decreases requests.len(),
{
    if requests.len() == 0 {
        law_empty_is_consistent(state);
    } else {
        let before: Occupancy = served(state, requests.drop_last());
        let last: Request = requests.last();
        law_requests_leave_nothing_behind(state, requests.drop_last());
        law_reserve_keeps_consistent(before, last.agent, last.options, last.session);
        law_reserve_keeps_owned(before, last.agent, last.options, last.session);
    }
}

/// What a grant does to each cell: the cells of the regions go to the session, the agent's former
/// cells are vacated, and every other cell stays as it is.
pub proof fn law_grant_cell_by_cell(
    state: Occupancy,
    agent: Seq<char>,
    options: Seq<Seq<TargetRegionView>>,
    session: Seq<u8>,
    cell: (int, int),
)
    requires
        consistent(state),
    ensures
        state.choice(agent, options) matches Some(i) ==> ({
            let after: Occupancy = state.reserved(agent, options, session);
            if covered(options[i], state.grid_size, options[i].len(), cell) {
                after.cells.contains_key(cell) && after.cells[cell] == session
            } else if state.cells.contains_key(cell) && Some(state.cells[cell])
                != state.session_of(agent) {
                after.cells.contains_key(cell) && after.cells[cell] == state.cells[cell]
            } else {
                !after.cells.contains_key(cell)
            }
        }),
{
    match state.choice(agent, options) {
        Some(i) => {
            let regions: Seq<TargetRegionView> = options[i];
            let base: Occupancy = state.vacated(agent);
            lemma_all_marked(base, session, regions, regions.len());
            match state.session_of(agent) {
                Some(own) => {
                    law_clear_keeps_consistent(state, own);
                },
                None => {},
            }
            let moved: Occupancy = base.all_marked(session, regions, regions.len());
            assert(moved.cells.contains_key(cell) <==> covered(
                regions,
                state.grid_size,
                regions.len(),
                cell,
            ) || base.cells.contains_key(cell));
            assert(moved.cells.contains_key(cell) ==> moved.cells[cell] == if covered(
                regions,
                state.grid_size,
                regions.len(),
                cell,
            ) {
                session
            } else {
                base.cells[cell]
            });
        },
        None => {},
    }
}

/// No cell of any other session is touched by a request: neither taken nor vacated.
pub proof fn law_others_keep_their_cells(
    state: Occupancy,
    agent: Seq<char>,
    options: Seq<Seq<TargetRegionView>>,
    session: Seq<u8>,
    cell: (int, int),
)
    requires
        consistent(state),
        state.cells.contains_key(cell),
        Some(state.cells[cell]) != state.session_of(agent),
    ensures
        state.reserved(agent, options, session).cells.contains_key(cell),
        state.reserved(agent, options, session).cells[cell] == state.cells[cell],
{
    law_choice_is_first(state, agent, options);
    law_grant_cell_by_cell(state, agent, options, session, cell);
    match state.choice(agent, options) {
        Some(i) => {
            lemma_vacated_blocks(state, agent, options[i]);
            match state.session_of(agent) {
                Some(own) => {
                    law_clear_keeps_consistent(state, own);
                },
                None => {},
            }
            assert(state.vacated(agent).cells.contains_key(cell));
            assert(!covered(options[i], state.grid_size, options[i].len(), cell));
        },
        None => {},
    }
}

/// An agent has the session of its last granted request, and no request changes the session of
/// any other agent.
pub proof fn law_one_session_per_agent(
    state: Occupancy,
    agent: Seq<char>,
    options: Seq<Seq<TargetRegionView>>,
    session: Seq<u8>,
    other: Seq<char>,
)
    ensures
        state.reserved(agent, options, session).session_of(other) == if other == agent
            && state.choice(agent, options) is Some {
            Some(session)
        } else {
            state.session_of(other)
        },
{
    match state.choice(agent, options) {
        Some(i) => {
            lemma_all_marked(state.vacated(agent), session, options[i], options[i].len());
        },
        None => {},
    }
}

/// What was granted is taken for everybody else: an alternative with a region that shares a cell
/// with it is not available to an agent with another session.
pub proof fn law_grant_excludes_others(
    state: Occupancy,
    agent: Seq<char>,
    options: Seq<Seq<TargetRegionView>>,
    session: Seq<u8>,
    wanted: Seq<TargetRegionView>,
    k: int,
    cell: (int, int),
    ignore: Option<Seq<u8>>,
)
    requires
        state.choice(agent, options) matches Some(i) && covered(
            options[i],
            state.grid_size,
            options[i].len(),
            cell,
        ),
        0 <= k < wanted.len(),
        region_bounds(wanted[k].region, state.grid_size) matches Some(range) && range.contains(
            cell,
        ),
        ignore != Some(session),
    ensures
        !state.reserved(agent, options, session).available(wanted, ignore),
{
    let after: Occupancy = state.reserved(agent, options, session);
    let i: int = state.choice(agent, options)->0;
    lemma_all_marked(state.vacated(agent), session, options[i], options[i].len());
    let moved: Occupancy = state.vacated(agent).all_marked(session, options[i], options[i].len());
    assert(moved.cells.contains_key(cell) && moved.cells[cell] == session);
    assert(after.cells.contains_key(cell));
    let range: CellRange = region_bounds(wanted[k].region, state.grid_size)->0;
    assert(!after.block_free(range, ignore));
    assert(after.region_free(wanted[k].region, ignore) == Ok::<bool, ShapeErr>(false));
}

/// An agent can always ask again for what it was granted.
pub proof fn law_grant_is_available_to_its_agent(
    state: Occupancy,
    agent: Seq<char>,
    options: Seq<Seq<TargetRegionView>>,
    session: Seq<u8>,
)
    requires
        consistent(state),
    ensures
        state.choice(agent, options) matches Some(i) ==> state.reserved(
            agent,
            options,
            session,
        ).available(options[i], Some(session)),
{
    law_choice_is_first(state, agent, options);
    match state.choice(agent, options) {
        Some(i) => {
            let after: Occupancy = state.reserved(agent, options, session);
            let regions: Seq<TargetRegionView> = options[i];
            lemma_all_marked(state.vacated(agent), session, regions, regions.len());
            assert forall|j: int| 0 <= j < regions.len() implies #[trigger] after.region_free(
                regions[j].region,
                Some(session),
            ) == Ok::<bool, ShapeErr>(true) by {
                assert(state.region_free(regions[j].region, state.session_of(agent)) == Ok::<
                    bool,
                    ShapeErr,
                >(true));
                match region_bounds(regions[j].region, state.grid_size) {
                    Some(range) => {
                        assert forall|cell: (int, int)|
                            range.contains(cell) && #[trigger] after.cells.contains_key(
                                cell,
                            ) implies Some(after.cells[cell]) == Some(session) by {
                            assert(covered(regions, state.grid_size, regions.len(), cell));
                            law_grant_cell_by_cell(state, agent, options, session, cell);
                        }
                    },
                    None => {},
                }
            }
        },
        None => {},
    }
}

} // verus!
