//! Which robots take part, and the topics over which each of them is served.

use crate::roster::NameSet;
use vstd::prelude::*;

verus! {

/// The topics of one robot.
#[derive(Debug)]
pub struct RobotTopics {
    pub destination: String,
    pub error: String,
    pub goal: String,
}

/// The topics bear the robot's name.
pub open spec fn topics_of(topics: RobotTopics, robot: Seq<char>) -> bool {
    &&& topics.destination@ == robot + "/destination"@
    &&& topics.error@ == robot + "/destination/error"@
    &&& topics.goal@ == robot + "/destination/goal"@
}

/// The robots that take part.
pub struct DiscoveryServer {
    active_robots: NameSet,
}

impl View for DiscoveryServer {
    type V = Set<Seq<char>>;

    closed spec fn view(&self) -> Set<Seq<char>> {
        self.active_robots@
    }
}

impl DiscoveryServer {
    /// No robot is entered twice.
    pub closed spec fn wf(&self) -> bool {
        self.active_robots.wf()
    }

    /// Nobody takes part.
    pub fn new() -> (r: Self)
        ensures
            r.wf(),
            r@ == Set::<Seq<char>>::empty(),
    {
        DiscoveryServer { active_robots: NameSet::new() }
    }

    /// A robot was discovered: the topics to serve it over, unless it takes part already.
    pub fn discovered(&self, robot_id: &str) -> (r: Option<RobotTopics>)
        ensures
            match r {
                Some(topics) => !self@.contains(robot_id@) && topics_of(topics, robot_id@),
                None => self@.contains(robot_id@),
            },
    {
        if self.active_robots.contains(robot_id) {
            None
        } else {
            Some(
                RobotTopics {
                    destination: robot_id.to_owned().concat("/destination"),
                    error: robot_id.to_owned().concat("/destination/error"),
                    goal: robot_id.to_owned().concat("/destination/goal"),
                },
            )
        }
    }

    /// All connections to a robot are up: it takes part from now on.
    pub fn connected(&mut self, robot_id: &str)
        requires
            old(self).wf(),
        ensures
            final(self).wf(),
            final(self)@ == old(self)@.insert(robot_id@),
    {
        let _ = self.active_robots.insert(robot_id);
    }

    /// A robot has left: it no longer takes part. Says whether it did.
    pub fn left(&mut self, robot_id: &str) -> (r: bool)
        requires
            old(self).wf(),
        ensures
            final(self).wf(),
            final(self)@ == old(self)@.remove(robot_id@),
            r == old(self)@.contains(robot_id@),
    {
        self.active_robots.remove(robot_id)
    }
}

} // verus!
