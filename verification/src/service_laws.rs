//! Requests and their replies, the text of sessions, topics and markers, piece by piece.

use crate::discovery::{topics_of, RobotTopics};
use crate::double::Double;
use crate::executor::{DOUBLE_ONE, SINGLE_ONE};
use crate::grid::{range_of, region_bounds, regions_fit, CellRange};
use crate::messages::{Position, Time};
use crate::occupancy::Occupancy;
use crate::region::{
    alternatives, DomainDestination, DomainDestinationError, DomainDestinationGoal,
    TargetRegionView,
};
use crate::reservation::law_choice_is_first;
use crate::server::{answers, attempts, by_size, has_size, law_sort_is_stable, lemma_by_size_len};
use crate::session::{hex_text, session_text};
use crate::single::Single;
use crate::visualizer::{dot_at, on_floor, robot_argument, Marker, Shape, DOT_SIZE, LINE_WIDTH};
use vstd::prelude::*;

verus! {

/// The order in which the alternatives of a request are tried: all of them, those with fewer
/// regions first, and of those with equally many the one that was given first. Where there are
/// biases, but not one for each alternative, none is tried.
pub proof fn law_attempts_in_detail(goals: DomainDestinationGoal, n: nat, i: int, j: int)
    ensures
        goals.cost_bias@.len() != 0 && goals.cost_bias@.len() != goals.one_of@.len() ==> attempts(
            goals,
        ).len() == 0,
        goals.cost_bias@.len() == 0 || goals.cost_bias@.len() == goals.one_of@.len() ==> {
            &&& attempts(goals).len() == goals.one_of@.len()
            &&& 0 <= i <= j < goals.one_of@.len() ==> attempts(goals)[i].len() <= attempts(
                goals,
            )[j].len()
            &&& attempts(goals).filter(|option: Seq<TargetRegionView>| option.len() == n)
                == alternatives(goals.one_of@).filter(
                |option: Seq<TargetRegionView>| option.len() == n,
            )
        },
{
    let options: Seq<Seq<TargetRegionView>> = alternatives(goals.one_of@);
    law_sort_is_stable(options, n);
    lemma_by_size_len(options);
    assert(has_size(n) =~= (|option: Seq<TargetRegionView>| option.len() == n));
    if 0 <= i <= j < options.len() {
        assert(by_size(options)[i].len() <= by_size(options)[j].len());
    }
}

/// The reply to a request, piece by piece: the alternative that was chosen, under the session of
/// the request; or a refusal under that session, which says whether the biases do not match,
/// whether there was nothing to choose from, or whether nothing was free.
#[verifier::rlimit(50)]
pub proof fn law_reply_in_detail(
    state: Occupancy,
    agent: Seq<char>,
    goals: DomainDestinationGoal,
    reply: Result<DomainDestination, DomainDestinationError>,
)
    requires
        answers(state, agent, goals, reply),
    ensures
        reply is Ok <==> state.choice(agent, attempts(goals)) is Some,
        reply matches Ok(granted) ==> granted.session == goals.session && granted.constraints@
            == attempts(goals)[state.choice(agent, attempts(goals))->0],
        goals.cost_bias@.len() != 0 && goals.cost_bias@.len() != goals.one_of@.len()
            ==> (reply matches Err(refused) && refused.error.message@
            == "Number of goals and destinations do not match"@ && refused.error.parameters@
            == "TODO"@),
        (goals.cost_bias@.len() == 0 || goals.cost_bias@.len() == goals.one_of@.len())
            && goals.one_of@.len() == 0 ==> (reply matches Err(refused) && refused.error.message@
            == "No goals provided"@ && refused.error.parameters@ == "one_of is empty"@),
        (goals.cost_bias@.len() == 0 || goals.cost_bias@.len() == goals.one_of@.len())
            && goals.one_of@.len() > 0 ==> (reply matches Err(refused) ==> refused.error.message@
            == "No available constraints"@ && refused.error.parameters@ == ""@),
        reply matches Err(refused) ==> refused.error.code == 0 && refused.session@
            == goals.session@,
{
    law_attempts_in_detail(goals, 0, 0, 0);
    law_choice_is_first(state, agent, attempts(goals));
}

/// Which blocks of cells can be laid out: the number of rows, and of the cells in a row if there
/// are rows, must be a machine integer.
pub proof fn law_fitting_blocks(range: CellRange)
    ensures
        range.fits() <==> range.end_y + 1 <= usize::MAX && (range.start_y > range.end_y
            || range.end_x + 1 <= usize::MAX),
{
}

/// An alternative can be laid out exactly if each of its regions can, and four machine integers
/// stand for a block in the order first and last column, first and last row.
pub proof fn law_fitting_alternatives(
    regions: Seq<TargetRegionView>,
    cell_size: Single,
    bounds: (usize, usize, usize, usize),
)
    ensures
        regions_fit(regions, cell_size) <==> forall|i: int|
            0 <= i < regions.len() ==> ((#[trigger] region_bounds(
                regions[i].region,
                cell_size,
            )) matches Some(range) ==> range.fits()),
        range_of(bounds).start_x == bounds.0,
        range_of(bounds).end_x == bounds.1,
        range_of(bounds).start_y == bounds.2,
        range_of(bounds).end_y == bounds.3,
{
}

/// The digits of a list of bytes: two for each byte, the higher half first.
proof fn lemma_hex_text(bytes: Seq<u8>, b: int)
    ensures
        hex_text(bytes).len() == 2 * bytes.len(),
        0 <= b < bytes.len() ==> hex_text(bytes)[2 * b] as int == (if bytes[b] / 16 < 10 {
            48 + bytes[b] / 16
        } else {
            87 + bytes[b] / 16
        }),
        0 <= b < bytes.len() ==> hex_text(bytes)[2 * b + 1] as int == (if bytes[b] % 16 < 10 {
            48 + bytes[b] % 16
        } else {
            87 + bytes[b] % 16
        }),
    decreases bytes.len(),
{
    if bytes.len() > 0 {
        lemma_hex_text(bytes.drop_last(), b);
    }
}

/// The text of a session: 36 characters, hyphens at four places, and between them for each byte
/// its two hexadecimal digits, the higher half first and letters in lower case.
#[verifier::rlimit(50)]
pub proof fn law_session_text_in_detail(id: Seq<u8>, b: int)
    requires
        id.len() == 16,
    ensures
        session_text(id).len() == 36,
        session_text(id)[8] == '-',
        session_text(id)[13] == '-',
        session_text(id)[18] == '-',
        session_text(id)[23] == '-',
        0 <= b < 16 ==> ({
            let at: int = 2 * b + (if b >= 4 {
                1int
            } else {
                0
            }) + (if b >= 6 {
                1int
            } else {
                0
            }) + (if b >= 8 {
                1int
            } else {
                0
            }) + (if b >= 10 {
                1int
            } else {
                0
            });
            let high: int = id[b] as int / 16;
            let low: int = id[b] as int % 16;
            &&& session_text(id)[at] as int == if high < 10 {
                48 + high
            } else {
                87 + high
            }
            &&& session_text(id)[at + 1] as int == if low < 10 {
                48 + low
            } else {
                87 + low
            }
        }),
{
    lemma_hex_text(id.subrange(0, 4), b);
    lemma_hex_text(id.subrange(4, 6), b - 4);
    lemma_hex_text(id.subrange(6, 8), b - 6);
    lemma_hex_text(id.subrange(8, 10), b - 8);
    lemma_hex_text(id.subrange(10, 16), b - 10);
}

/// The topics over which a robot is served bear its name.
pub proof fn law_topics_in_detail(topics: RobotTopics, robot: Seq<char>)
    requires
        topics_of(topics, robot),
    ensures
        topics.destination@ == robot + "/destination"@,
        topics.error@ == robot + "/destination/error"@,
        topics.goal@ == robot + "/destination/goal"@,
{
}

/// Which robot is shown: the one that the first argument after the program names, not counting
/// arguments that begin with a hyphen; where all do, a default.
pub proof fn law_robot_is_the_first_plain_argument(args: Seq<String>, from: int, i: int)
    requires
        1 <= from <= i <= args.len(),
        forall|k: int|
            from <= k < i ==> (#[trigger] args[k])@.len() > 0 && args[k]@[0] == '-',
    ensures
        i == args.len() ==> robot_argument(args, from) == "robot0"@,
        i < args.len() && (args[i]@.len() == 0 || args[i]@[0] != '-') ==> robot_argument(args, from)
            == args[i]@,
    decreases i - from,
{
    if from < i {
        assert(args[from]@.len() > 0);
        law_robot_is_the_first_plain_argument(args, from + 1, i);
    }
}

/// The marker of a target, piece by piece: a red sphere of size 0.25 at the target, upright and on
/// the floor.
pub proof fn law_dot_in_detail(marker: Marker, robot: Seq<char>, p: Position)
    requires
        dot_at(marker, robot, p),
    ensures
        marker.frame_id@ == "map"@,
        marker.ns@ == robot + "_safe_zone"@,
        marker.id == 1,
        marker.shape == Shape::Sphere,
        marker.stamp == (Time { sec: 0, nanosec: 0 }),
        marker.color.r.bits == 0x3f80_0000,
        marker.color.g.bits == 0,
        marker.color.b.bits == 0,
        marker.color.a.bits == 0x3f80_0000,
        marker.scale.x.bits == 0x3fd0_0000_0000_0000,
        marker.scale.y.bits == 0x3fd0_0000_0000_0000,
        marker.scale.z.bits == 0x3fd0_0000_0000_0000,
        marker.points@.len() == 0,
        marker.pose matches Some(pose) && {
            &&& pose.position.x == Double::widened(p.x)
            &&& pose.position.y == Double::widened(p.y)
            &&& pose.position.z.bits == 0
            &&& pose.orientation.x.bits == 0
            &&& pose.orientation.y.bits == 0
            &&& pose.orientation.z.bits == 0
            &&& pose.orientation.w.bits == 0x3ff0_0000_0000_0000
        },
{
}

/// A position is shown on the floor, and the numbers that markers are made with.
pub proof fn law_points_of_markers(p: Position)
    ensures
        on_floor(p).x == Double::widened(p.x),
        on_floor(p).y == Double::widened(p.y),
        on_floor(p).z.bits == 0,
        SINGLE_ONE == 0x3f80_0000,
        DOUBLE_ONE == 0x3ff0_0000_0000_0000,
        LINE_WIDTH == 0x3fa9_9999_9999_999a,
        DOT_SIZE == 0x3fd0_0000_0000_0000,
{
}

} // verus!
