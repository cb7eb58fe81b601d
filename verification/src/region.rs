//! Regions of the floor, and the requests and replies that speak of them.

use crate::session::SessionUUID;
use crate::single::Single;
use vstd::prelude::*;

verus! {

/// Why a region cannot be looked up on the grid.
#[derive(Debug)]
pub enum ShapeErr {
    UnsupportedHint,
    InvalidPoints,
}

/// A region of the floor: alternating x and y coordinates, and what shape they describe.
#[derive(Debug, PartialEq)]
pub struct DomainRegion {
    pub points: Vec<Single>,
    pub hint: u8,
}

/// What a region holds.
pub struct RegionView {
    pub points: Seq<Single>,
    pub hint: u8,
}

impl View for DomainRegion {
    type V = RegionView;

    open spec fn view(&self) -> RegionView {
        RegionView { points: self.points@, hint: self.hint }
    }
}

impl DomainRegion {
    /// The region is a single point.
    pub const HINT_POINT: u8 = 1;

    /// The region is the rectangle spanned by its points.
    pub const HINT_AXIS_ALIGNED_RECTANGLE: u8 = 2;
}

impl Clone for DomainRegion {
    fn clone(&self) -> (r: Self)
        ensures
            r@ == self@,
    {
        let points: Vec<Single> = self.points.clone();
        assert(points@ =~= self.points@);
        DomainRegion { points, hint: self.hint }
    }
}

/// A region to be reached within a tolerance.
#[derive(Debug, PartialEq)]
pub struct DomainTargetRegion {
    pub tolerance: Single,
    pub region: DomainRegion,
}

/// What a target region holds.
pub struct TargetRegionView {
    pub tolerance: Single,
    pub region: RegionView,
}

impl View for DomainTargetRegion {
    type V = TargetRegionView;

    open spec fn view(&self) -> TargetRegionView {
        TargetRegionView { tolerance: self.tolerance, region: self.region@ }
    }
}

impl Clone for DomainTargetRegion {
    fn clone(&self) -> (r: Self)
        ensures
            r@ == self@,
    {
        DomainTargetRegion { tolerance: self.tolerance, region: self.region.clone() }
    }
}

/// The regions that one destination takes up, all of them together.
#[derive(Debug, PartialEq)]
pub struct DomainDestinationConstraints {
    pub regions: Vec<DomainTargetRegion>,
}

impl View for DomainDestinationConstraints {
    type V = Seq<TargetRegionView>;

    open spec fn view(&self) -> Seq<TargetRegionView> {
        Seq::new(self.regions@.len(), |i: int| self.regions@[i]@)
    }
}

impl Clone for DomainDestinationConstraints {
    fn clone(&self) -> (r: Self)
        ensures
            r@ == self@,
    {
        let mut regions: Vec<DomainTargetRegion> = Vec::new();
        let mut i: usize = 0;
        while i < self.regions.len()
            invariant
                i <= self.regions.len(),
                regions.len() == i,
                forall|j: int| 0 <= j < i ==> regions@[j]@ == self.regions@[j]@,
            decreases self.regions.len() - i,
        {
            regions.push(self.regions[i].clone());
            i = i + 1;
        }
        let r: DomainDestinationConstraints = DomainDestinationConstraints { regions };
        assert(r@ =~= self@);
        r
    }
}

/// What a list of alternatives holds.
pub open spec fn alternatives(list: Seq<DomainDestinationConstraints>) -> Seq<
    Seq<TargetRegionView>,
> {
    Seq::new(list.len(), |i: int| list[i]@)
}

/// A request for one of several destinations.
pub struct DomainDestinationGoal {
    pub one_of: Vec<DomainDestinationConstraints>,
    pub cost_bias: Vec<Single>,
    pub session: SessionUUID,
}

/// A granted destination.
pub struct DomainDestination {
    pub constraints: DomainDestinationConstraints,
    pub session: SessionUUID,
}

/// What went wrong with a request.
#[derive(Debug)]
pub struct DomainError {
    pub code: u32,
    pub message: String,
    pub parameters: String,
}

/// A refused request.
#[derive(Debug)]
pub struct DomainDestinationError {
    pub error: DomainError,
    pub session: SessionUUID,
}

/// Why nothing was reserved.
#[derive(Debug, PartialEq)]
pub enum ReservationError {
    NoAvailableConstraints,
}

} // verus!
