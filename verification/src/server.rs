//! The destination service: requests for one of several destinations.

use crate::grid::regions_fit;
use crate::occupancy::{rows_after, shape, CurrentlyOccupiedDestinations, Occupancy};
use crate::region::{
    alternatives, DomainDestination, DomainDestinationConstraints, DomainDestinationError,
    DomainDestinationGoal, DomainError, TargetRegionView,
};
use crate::reservation::law_choice_is_first;
use crate::session::SessionUUID;
use crate::single::Single;
use vstd::prelude::*;

verus! {

/// A sorted list with one more alternative, put behind those that have no more regions than it.
pub open spec fn placed(
    sorted: Seq<Seq<TargetRegionView>>,
    option: Seq<TargetRegionView>,
) -> Seq<Seq<TargetRegionView>>
    decreases sorted.len(),
{
    if sorted.len() == 0 || sorted.last().len() <= option.len() {
        sorted.push(option)
    } else {
        placed(sorted.drop_last(), option).push(sorted.last())
    }
}

/// The alternatives by their number of regions, those with equally many in the order given.
pub open spec fn by_size(options: Seq<Seq<TargetRegionView>>) -> Seq<Seq<TargetRegionView>>
    decreases options.len(),
{
    if options.len() == 0 {
        options
    } else {
        placed(by_size(options.drop_last()), options.last())
    }
}

/// There is a bias for each alternative, or no bias at all.
pub open spec fn biases_match(goals: DomainDestinationGoal) -> bool {
    goals.cost_bias@.len() == 0 || goals.cost_bias@.len() == goals.one_of@.len()
}

/// The refusal carries the given text and session.
pub open spec fn refuses(
    refusal: DomainDestinationError,
    message: Seq<char>,
    parameters: Seq<char>,
    session: Seq<u8>,
) -> bool {
    &&& refusal.error.code == 0
    &&& refusal.error.message@ == message
    &&& refusal.error.parameters@ == parameters
    &&& refusal.session@ == session
}

/// What is to be tried for a request, in this order; nothing where the request is malformed.
pub open spec fn attempts(goals: DomainDestinationGoal) -> Seq<Seq<TargetRegionView>> {
    if biases_match(goals) {
        by_size(alternatives(goals.one_of@))
    } else {
        Seq::empty()
    }
}

/// The reply to a request: the alternative that the agent gets, or why it gets none.
pub open spec fn answers(
    state: Occupancy,
    agent: Seq<char>,
    goals: DomainDestinationGoal,
    reply: Result<DomainDestination, DomainDestinationError>,
) -> bool {
    match state.choice(agent, attempts(goals)) {
        Some(i) => reply matches Ok(granted) && granted.constraints@ == attempts(goals)[i]
            && granted.session == goals.session,
        None => reply matches Err(refused) && (if !biases_match(goals) {
            refuses(
                refused,
                "Number of goals and destinations do not match"@,
                "TODO"@,
                goals.session@,
            )
        } else if goals.one_of@.len() == 0 {
            refuses(refused, "No goals provided"@, "one_of is empty"@, goals.session@)
        } else {
            refuses(refused, "No available constraints"@, ""@, goals.session@)
        }),
    }
}

/// Two replies say the same.
pub open spec fn same_reply(
    a: Result<DomainDestination, DomainDestinationError>,
    b: Result<DomainDestination, DomainDestinationError>,
) -> bool {
    match (a, b) {
        (Ok(x), Ok(y)) => x.constraints@ == y.constraints@ && x.session == y.session,
        (Err(x), Err(y)) => refuses(x, y.error.message@, y.error.parameters@, y.session@)
            && x.error.code == y.error.code,
        _ => false,
    }
}

/// The biases have no influence on the reply: two requests that differ in nothing but their
/// biases, both of them with as many as there are alternatives or none, are answered alike and
/// leave the same state behind.
pub proof fn law_bias_has_no_influence(
    state: Occupancy,
    agent: Seq<char>,
    first: DomainDestinationGoal,
    second: DomainDestinationGoal,
    first_reply: Result<DomainDestination, DomainDestinationError>,
    second_reply: Result<DomainDestination, DomainDestinationError>,
)
    requires
        alternatives(first.one_of@) == alternatives(second.one_of@),
        first.session == second.session,
        biases_match(first),
        biases_match(second),
        answers(state, agent, first, first_reply),
        answers(state, agent, second, second_reply),
    ensures
        attempts(first) == attempts(second),
        same_reply(first_reply, second_reply),
        state.reserved(agent, attempts(first), first.session@) == state.reserved(
            agent,
            attempts(second),
            second.session@,
        ),
{
    assert(alternatives(first.one_of@).len() == alternatives(second.one_of@).len());
}

/// A place in a sorted list that separates the smaller from the larger is where a new
/// alternative goes.
proof fn lemma_placed(sorted: Seq<Seq<TargetRegionView>>, option: Seq<TargetRegionView>, p: int)
    requires
        0 <= p <= sorted.len(),
        p > 0 ==> sorted[p - 1].len() <= option.len(),
        forall|j: int| p <= j < sorted.len() ==> (#[trigger] sorted[j]).len() > option.len(),
    ensures
        placed(sorted, option) == sorted.insert(p, option),
    decreases sorted.len() - p,
{
    if p == sorted.len() {
        assert(sorted.insert(p, option) =~= sorted.push(option));
    } else {
        let shorter: Seq<Seq<TargetRegionView>> = sorted.drop_last();
        lemma_placed(shorter, option, p);
        assert(shorter.insert(p, option).push(sorted.last()) =~= sorted.insert(p, option));
    }
}

fn refusal(message: &str, parameters: &str, session: SessionUUID) -> (r: DomainDestinationError)
    ensures
        refuses(r, message@, parameters@, session@),
{
    DomainDestinationError {
        error: DomainError {
            code: 0,
            message: message.to_owned(),
            parameters: parameters.to_owned(),
        },
        session,
    }
}

/// Sorts alternatives by their number of regions, keeping the order of those with equally many.
fn sort_by_size(list: &Vec<DomainDestinationConstraints>) -> (r: Vec<DomainDestinationConstraints>)
    ensures
        alternatives(r@) == by_size(alternatives(list@)),
{
    let mut sorted: Vec<DomainDestinationConstraints> = Vec::new();
    let ghost options: Seq<Seq<TargetRegionView>> = alternatives(list@);
    assert(options.take(0) =~= Seq::empty());
    assert(alternatives(sorted@) =~= by_size(options.take(0)));
    let mut i: usize = 0;
    while i < list.len()
        invariant
            i <= list.len(),
            options == alternatives(list@),
            alternatives(sorted@) == by_size(options.take(i as int)),
        decreases list.len() - i,
    {
        let size: usize = list[i].regions.len();
        let ghost old_sorted: Seq<Seq<TargetRegionView>> = alternatives(sorted@);
        let mut p: usize = sorted.len();
        while p > 0 && sorted[p - 1].regions.len() > size
            invariant
                p <= sorted@.len(),
                old_sorted == alternatives(sorted@),
                forall|j: int| p <= j < old_sorted.len() ==> (#[trigger] old_sorted[j]).len() > size,
            decreases p,
        {
            assert(old_sorted[p - 1] == sorted@[p - 1]@);
            p = p - 1;
        }
        let copy: DomainDestinationConstraints = list[i].clone();
        proof {
            if p > 0 {
                assert(old_sorted[p - 1] == sorted@[p - 1]@);
            }
            lemma_placed(old_sorted, options[i as int], p as int);
            assert(alternatives(sorted@.insert(p as int, copy)) =~= old_sorted.insert(
                p as int,
                options[i as int],
            ));
            assert(options.take(i + 1).drop_last() =~= options.take(i as int));
        }
        sorted.insert(p, copy);
        i = i + 1;
    }
    assert(options.take(i as int) =~= options);
    sorted
}

proof fn lemma_placed_len(sorted: Seq<Seq<TargetRegionView>>, option: Seq<TargetRegionView>)
    ensures
        placed(sorted, option).len() == sorted.len() + 1,
    decreases sorted.len(),
{
    if sorted.len() > 0 && sorted.last().len() > option.len() {
        lemma_placed_len(sorted.drop_last(), option);
    }
}

/// Sorting keeps the number of alternatives.
pub proof fn lemma_by_size_len(options: Seq<Seq<TargetRegionView>>)
    ensures
        by_size(options).len() == options.len(),
    decreases options.len(),
{
    if options.len() > 0 {
        lemma_by_size_len(options.drop_last());
        lemma_placed_len(by_size(options.drop_last()), options.last());
    }
}

/// The destination service.
pub struct DestinationsServer {
    pub currently_occupied: CurrentlyOccupiedDestinations,
}

impl View for DestinationsServer {
    type V = Occupancy;

    open spec fn view(&self) -> Occupancy {
        self.currently_occupied@
    }
}

impl DestinationsServer {
    /// The books are in order.
    pub open spec fn wf(&self) -> bool {
        self.currently_occupied.wf()
    }

    /// A service for an empty floor.
    pub fn new(grid_size: Single) -> (r: Self)
        ensures
            r.wf(),
            r.currently_occupied.floor_space@.len() == 0,
            r@ == (Occupancy {
                cells: Map::empty(),
                locations: Map::empty(),
                agents: Map::empty(),
                grid_size,
            }),
    {
        DestinationsServer { currently_occupied: CurrentlyOccupiedDestinations::new(grid_size) }
    }

    /// Whether what a request would be granted, if anything, can be laid out in memory.
    pub fn can_serve(&self, agent_id: &str, goals: &DomainDestinationGoal) -> (r: bool)
        requires
            self.wf(),
        ensures
            r == (self@.choice(agent_id@, attempts(*goals)) matches Some(i) ==> regions_fit(
                attempts(*goals)[i],
                self@.grid_size,
            )),
    {
        if goals.cost_bias.len() != 0 && goals.one_of.len() != goals.cost_bias.len() {
            return true;
        }
        let sorted: Vec<DomainDestinationConstraints> = sort_by_size(&goals.one_of);
        match self.currently_occupied.find_available(agent_id, sorted.as_slice()) {
            Some(i) => self.currently_occupied.can_hold(&sorted[i]),
            None => true,
        }
    }

    /// Serves a request: a destination with as few regions as possible among those that are
    /// free, or a refusal that says why there is none.
    pub fn request_destination(&mut self, agent_id: &str, goals: &DomainDestinationGoal) -> (r:
        Result<DomainDestination, DomainDestinationError>)
        requires
            old(self).wf(),
            old(self)@.choice(agent_id@, attempts(*goals)) matches Some(i) ==> regions_fit(
                attempts(*goals)[i],
                old(self)@.grid_size,
            ),
        ensures
            final(self).wf(),
            final(self)@ == old(self)@.reserved(agent_id@, attempts(*goals), goals.session@),
            shape(final(self).currently_occupied.floor_space@) == rows_after(
                shape(old(self).currently_occupied.floor_space@),
                old(self)@,
                agent_id@,
                attempts(*goals),
            ),
            answers(old(self)@, agent_id@, *goals, r),
            r is Err ==> final(self)@ == old(self)@,
    {
        if goals.cost_bias.len() != 0 && goals.one_of.len() != goals.cost_bias.len() {
            return Err(
                refusal("Number of goals and destinations do not match", "TODO", goals.session),
            );
        }
        let sorted: Vec<DomainDestinationConstraints> = sort_by_size(&goals.one_of);
        proof {
            lemma_by_size_len(alternatives(goals.one_of@));
        }
        if sorted.len() == 0 {
            assert(alternatives(sorted@).len() == 0);
            return Err(refusal("No goals provided", "one_of is empty", goals.session));
        }
        assert(alternatives(sorted@).len() > 0);
        match self.currently_occupied.reserve_one_of(agent_id, sorted.as_slice(), &goals.session) {
            Ok(constraints) => Ok(DomainDestination { constraints, session: goals.session }),
            Err(_) => Err(refusal("No available constraints", "", goals.session)),
        }
    }
}

/// Whether an alternative has `n` regions.
pub open spec fn has_size(n: nat) -> spec_fn(Seq<TargetRegionView>) -> bool {
    |option: Seq<TargetRegionView>| option.len() == n
}

/// The list is in order of the number of regions.
pub open spec fn size_ordered(options: Seq<Seq<TargetRegionView>>) -> bool {
    forall|i: int, j: int|
        0 <= i <= j < options.len() ==> (#[trigger] options[i]).len() <= (
        #[trigger] options[j]).len()
}

proof fn lemma_filter_push(
    options: Seq<Seq<TargetRegionView>>,
    option: Seq<TargetRegionView>,
    n: nat,
)
    ensures
        options.push(option).filter(has_size(n)) == if option.len() == n {
            options.filter(has_size(n)).push(option)
        } else {
            options.filter(has_size(n))
        },
{
    reveal(Seq::filter);
    assert(options.push(option).drop_last() =~= options);
}

proof fn lemma_placed_order(
    sorted: Seq<Seq<TargetRegionView>>,
    option: Seq<TargetRegionView>,
    n: nat,
)
    requires
        size_ordered(sorted),
    ensures
        size_ordered(placed(sorted, option)),
        placed(sorted, option).len() == sorted.len() + 1,
        sorted.len() > 0 && sorted.last().len() > option.len() ==> placed(sorted, option).last()
            == sorted.last(),
        placed(sorted, option).filter(has_size(n)) == sorted.push(option).filter(has_size(n)),
    decreases sorted.len(),
{
    if sorted.len() > 0 && sorted.last().len() > option.len() {
        let shorter: Seq<Seq<TargetRegionView>> = sorted.drop_last();
        let inner: Seq<Seq<TargetRegionView>> = placed(shorter, option);
        lemma_placed_order(shorter, option, n);
        lemma_filter_push(inner, sorted.last(), n);
        lemma_filter_push(shorter, option, n);
        lemma_filter_push(shorter, sorted.last(), n);
        lemma_filter_push(sorted, option, n);
        assert(shorter.push(sorted.last()) =~= sorted);
        lemma_placed_bound(shorter, option, sorted.last().len());
        let whole: Seq<Seq<TargetRegionView>> = inner.push(sorted.last());
        assert forall|i: int, j: int| 0 <= i <= j < whole.len() implies (
        #[trigger] whole[i]).len() <= (#[trigger] whole[j]).len() by {
            if j == inner.len() {
                if i < inner.len() {
                    assert(inner[i].len() <= sorted.last().len());
                }
            } else {
                assert(whole[i] == inner[i] && whole[j] == inner[j]);
            }
        }
    } else {
        let whole: Seq<Seq<TargetRegionView>> = sorted.push(option);
        assert forall|i: int, j: int| 0 <= i <= j < whole.len() implies (
        #[trigger] whole[i]).len() <= (#[trigger] whole[j]).len() by {
            if j == sorted.len() {
                if i < sorted.len() {
                    assert(sorted[i].len() <= sorted.last().len());
                }
            }
        }
    }
}

proof fn lemma_placed_bound(
    sorted: Seq<Seq<TargetRegionView>>,
    option: Seq<TargetRegionView>,
    bound: nat,
)
    requires
        option.len() <= bound,
        forall|i: int| 0 <= i < sorted.len() ==> (#[trigger] sorted[i]).len() <= bound,
    ensures
        forall|i: int|
            0 <= i < placed(sorted, option).len() ==> (#[trigger] placed(sorted, option)[i]).len()
                <= bound,
    decreases sorted.len(),
{
    if sorted.len() > 0 && sorted.last().len() > option.len() {
        let inner: Seq<Seq<TargetRegionView>> = placed(sorted.drop_last(), option);
        lemma_placed_bound(sorted.drop_last(), option, bound);
        assert forall|i: int| 0 <= i < placed(sorted, option).len() implies (
        #[trigger] placed(sorted, option)[i]).len() <= bound by {
            if i < inner.len() {
                assert(placed(sorted, option)[i] == inner[i]);
            } else {
                assert(placed(sorted, option)[i] == sorted[sorted.len() - 1]);
            }
        }
    }
}

/// Sorting puts the alternatives in order of their number of regions; those with equally many
/// regions are the same ones as before, in the same order.
pub proof fn law_sort_is_stable(options: Seq<Seq<TargetRegionView>>, n: nat)
    ensures
        size_ordered(by_size(options)),
        by_size(options).filter(has_size(n)) == options.filter(has_size(n)),
    decreases options.len(),
{
    if options.len() > 0 {
        let rest: Seq<Seq<TargetRegionView>> = options.drop_last();
        law_sort_is_stable(rest, n);
        lemma_placed_order(by_size(rest), options.last(), n);
        lemma_filter_push(by_size(rest), options.last(), n);
        lemma_filter_push(rest, options.last(), n);
        assert(rest.push(options.last()) =~= options);
    }
}

/// A request is granted with as few regions as can be: no alternative that is free has fewer.
pub proof fn law_grant_has_fewest_regions(
    state: Occupancy,
    agent: Seq<char>,
    goals: DomainDestinationGoal,
    k: int,
)
    requires
        biases_match(goals),
        0 <= k < goals.one_of@.len(),
        state.available(goals.one_of@[k]@, state.session_of(agent)),
    ensures
        state.choice(agent, attempts(goals)) matches Some(i) && attempts(goals)[i].len()
            <= goals.one_of@[k]@.len(),
{
    let options: Seq<Seq<TargetRegionView>> = alternatives(goals.one_of@);
    let sorted: Seq<Seq<TargetRegionView>> = by_size(options);
    let wanted: Seq<TargetRegionView> = goals.one_of@[k]@;
    let size: nat = wanted.len();
    law_choice_is_first(state, agent, sorted);
    law_sort_is_stable(options, size);
    assert(options[k] == wanted);
    options.lemma_filter_contains(has_size(size), k);
    assert(sorted.filter(has_size(size)).contains(wanted));
    sorted.lemma_filter_contains_rev(has_size(size), wanted);
    let j: int = choose|j: int| 0 <= j < sorted.len() && sorted[j] == wanted;
    assert(state.available(sorted[j], state.session_of(agent)));
    let i: int = state.choice(agent, sorted)->0;
    if i > j {
        assert(!state.available(sorted[j], state.session_of(agent)));
    }
}

} // verus!
