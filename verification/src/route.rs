//! The result of a search.

use vstd::prelude::*;
use vstd::std_specs::convert::FromSpecImpl;
use movingai::Coords2D;

verus! {

/// A route between two cells: the distance to travel and the cells to pass.
///
/// The steps run from the goal back to the start, so that the next cell to
/// walk to is always the last one. A route is built once and never changed.
pub struct Route {
    distance: u64,
    steps: Vec<Coords2D>,
}

/// What a route holds.
pub ghost struct RouteView {
    pub distance: u64,
    pub steps: Seq<Coords2D>,
}

impl View for Route {
    type V = RouteView;

    closed spec fn view(&self) -> RouteView {
        RouteView { distance: self.distance, steps: self.steps@ }
    }
}

/// A route is built from its distance and its steps.
impl From<(u64, Vec<Coords2D>)> for Route {
    fn from(item: (u64, Vec<Coords2D>)) -> (route: Route)
        ensures
            route@ == (RouteView { distance: item.0, steps: item.1@ }),
    {
        Route { distance: item.0, steps: item.1 }
    }
}

impl FromSpecImpl<(u64, Vec<Coords2D>)> for Route {
    open spec fn obeys_from_spec() -> bool {
        true
    }

    closed spec fn from_spec(item: (u64, Vec<Coords2D>)) -> Route {
        Route { distance: item.0, steps: item.1 }
    }
}

impl Route {
    /// The cells of the route, the goal first and the start last.
    pub fn steps(&self) -> (steps: Vec<Coords2D>)
        ensures
            steps@ == self@.steps,
    {
        let mut steps: Vec<Coords2D> = Vec::with_capacity(self.steps.len());
        let mut i: usize = 0;
        while i < self.steps.len()
            invariant
                i <= self.steps.len(),
                steps@ == self.steps@.take(i as int),
            decreases self.steps.len() - i,
        {
            steps.push(self.steps[i]);
            i += 1;
            assert(self.steps@.take(i as int) == self.steps@.take(i - 1).push(self.steps@[i - 1]));
        }
        assert(self.steps@.take(i as int) == self.steps@);
        steps
    }

    /// The distance to travel, as a fixed-point cost.
    pub fn distance(&self) -> (distance: u64)
        ensures
            distance == self@.distance,
    {
        self.distance
    }
}

} // verus!
