//! The numeric geometry that clustering rests on.
//!
//! Distance on the sphere, the projection that widens a rectangle by a margin
//! in pixels, and the running mean are computed on binary64 numbers by
//! functions that the caller supplies. Nothing is assumed of what they
//! return: every contract that mentions them holds for whatever they gave.
//! All that is asked of them is that they accept what they are given.

use vstd::prelude::*;
use crate::bounds::Bounds;
use crate::double::Double;
use crate::marker::Marker;

verus! {

/// Zoom levels from 0 up to, but not including, this one can be projected.
pub const ZOOM_LIMIT: usize = 30;

/// The one way a call can be wrong: a zoom level that cannot be projected.
#[derive(Clone, Copy, Debug, PartialEq, Eq, Structural)]
pub enum UsageError {
    ZoomOutOfRange,
}

/// Three functions on binary64 numbers, each of which accepts every argument
/// that it is given here.
///
/// `distance` is the great-circle distance in kilometers between two points.
/// `extend` pushes the north-east and south-west corners of a rectangle
/// outwards by a number of pixels at a zoom level below the limit.
/// `mean` takes a coordinate of a cluster's center, the number of markers the
/// center was averaged over, and the coordinate of one more marker, and gives
/// the coordinate of the new center.
pub struct Geometry<D, X, M> where
    D: Fn(Marker, Marker) -> Double,
    X: Fn(Bounds, usize, Double) -> Bounds,
    M: Fn(Double, u32, Double) -> Double,
 {
    distance: D,
    extend: X,
    mean: M,
}

/// Whether the three functions accept every argument, `extend` every zoom
/// level below the limit.
pub open spec fn total<D, X, M>(distance: D, extend: X, mean: M) -> bool where
    D: Fn(Marker, Marker) -> Double,
    X: Fn(Bounds, usize, Double) -> Bounds,
    M: Fn(Double, u32, Double) -> Double,
 {
    &&& forall|from: Marker, to: Marker| call_requires(distance, (from, to))
    &&& forall|bounds: Bounds, zoom: usize, margin: Double|
        zoom < ZOOM_LIMIT ==> call_requires(extend, (bounds, zoom, margin))
    &&& forall|center: Double, count: u32, coordinate: Double|
        call_requires(mean, (center, count, coordinate))
}

impl<D, X, M> Geometry<D, X, M> where
    D: Fn(Marker, Marker) -> Double,
    X: Fn(Bounds, usize, Double) -> Bounds,
    M: Fn(Double, u32, Double) -> Double,
 {
    /// Holds of every geometry: its functions accept what they are given.
    #[verifier::type_invariant]
    spec fn usable(&self) -> bool {
        total(self.distance, self.extend, self.mean)
    }

    /// `distance` can give `km` for these two points.
    pub closed spec fn measures(&self, from: Marker, to: Marker, km: Double) -> bool {
        call_ensures(self.distance, (from, to), km)
    }

    /// `extend` can give `wider` for this rectangle.
    pub closed spec fn extends(
        &self,
        bounds: Bounds,
        zoom: usize,
        margin: Double,
        wider: Bounds,
    ) -> bool {
        call_ensures(self.extend, (bounds, zoom, margin), wider)
    }

    /// `mean` can give `moved` for this coordinate.
    pub closed spec fn averages(
        &self,
        center: Double,
        count: u32,
        coordinate: Double,
        moved: Double,
    ) -> bool {
        call_ensures(self.mean, (center, count, coordinate), moved)
    }

    /// `mean` can give the point `moved` for this center, coordinate by coordinate.
    pub open spec fn recenters(&self, center: Marker, count: u32, point: Marker, moved: Marker) -> bool {
        &&& self.averages(center.lat, count, point.lat, moved.lat)
        &&& self.averages(center.lng, count, point.lng, moved.lng)
    }

    /// A geometry of three functions. What it can give is what they can give.
    pub fn new(distance: D, extend: X, mean: M) -> (geometry: Self)
        requires
            total(distance, extend, mean),
        ensures
            forall|from: Marker, to: Marker, km: Double| #[trigger]
                geometry.measures(from, to, km) == call_ensures(distance, (from, to), km),
            forall|bounds: Bounds, zoom: usize, margin: Double, wider: Bounds| #[trigger]
                geometry.extends(bounds, zoom, margin, wider) == call_ensures(
                    extend,
                    (bounds, zoom, margin),
                    wider,
                ),
            forall|center: Double, count: u32, coordinate: Double, moved: Double| #[trigger]
                geometry.averages(center, count, coordinate, moved) == call_ensures(
                    mean,
                    (center, count, coordinate),
                    moved,
                ),
    {
        Geometry { distance, extend, mean }
    }

    /// Asks for the distance between two points.
    pub fn measure(&self, from: Marker, to: Marker) -> (km: Double)
        ensures
            self.measures(from, to, km),
    {
        proof {
            use_type_invariant(self);
        }
        (self.distance)(from, to)
    }

    /// Asks for a rectangle to be widened.
    pub fn widen(&self, bounds: Bounds, zoom: usize, margin: Double) -> (wider: Bounds)
        requires
            zoom < ZOOM_LIMIT,
        ensures
            self.extends(bounds, zoom, margin, wider),
    {
        proof {
            use_type_invariant(self);
        }
        (self.extend)(bounds, zoom, margin)
    }

    /// Asks for the mean of a center and one more point.
    pub fn recenter(&self, center: Marker, count: u32, point: Marker) -> (moved: Marker)
        ensures
            self.recenters(center, count, point, moved),
    {
        proof {
            use_type_invariant(self);
        }
        let lat: Double = (self.mean)(center.lat, count, point.lat);
        let lng: Double = (self.mean)(center.lng, count, point.lng);
        Marker { lat, lng }
    }
}

} // verus!
