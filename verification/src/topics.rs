//! The topics of one robot, beside those over which it asks for destinations.

use vstd::prelude::*;

verus! {

/// The topic on which the plans of a robot are sent.
pub fn plan_topic(robot_name: &str) -> (r: String)
    ensures
        r@ == robot_name@ + "/plan"@,
{
    robot_name.to_owned().concat("/plan")
}

/// The topic on which the safe zones of a robot are sent.
pub fn safe_zone_topic(robot_name: &str) -> (r: String)
    ensures
        r@ == robot_name@ + "/plan/safe_zone"@,
{
    robot_name.to_owned().concat("/plan/safe_zone")
}

/// The topic on which the releases for a robot are sent.
pub fn release_topic(robot_name: &str) -> (r: String)
    ensures
        r@ == robot_name@ + "/plan/release"@,
{
    robot_name.to_owned().concat("/plan/release")
}

/// The topic on which the markers for a robot are sent.
pub fn marker_topic(robot_name: &str) -> (r: String)
    ensures
        r@ == robot_name@ + "/path_markers"@,
{
    robot_name.to_owned().concat("/path_markers")
}

} // verus!
