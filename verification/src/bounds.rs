//! Rectangles of latitude and longitude.

use vstd::prelude::*;
use crate::double::Double;
use crate::geometry::{Geometry, UsageError, ZOOM_LIMIT};
use crate::marker::{Marker, UniqueMarker};

verus! {

/// A rectangle whose sides run along parallels and meridians, in degrees.
#[derive(Clone, Copy, Debug, PartialEq, Eq, Structural)]
pub struct Bounds {
    pub north: Double,
    pub east: Double,
    pub south: Double,
    pub west: Double,
}

impl Bounds {
    /// Whether a point lies strictly inside the rectangle. A point on an edge
    /// is outside, and so is any point with a NaN coordinate.
    pub open spec fn holds(&self, point: Marker) -> bool {
        &&& point.lat.lt_spec(&self.north)
        &&& point.lng.lt_spec(&self.east)
        &&& self.south.lt_spec(&point.lat)
        &&& self.west.lt_spec(&point.lng)
    }

    /// The rectangle that is a single point.
    pub open spec fn at(point: Marker) -> Bounds {
        Bounds { north: point.lat, east: point.lng, south: point.lat, west: point.lng }
    }

    pub fn contains(&self, point: &UniqueMarker) -> (inside: bool)
        ensures
            inside == self.holds(point.position()),
    {
        point.lat.lt(&self.north) && point.lng.lt(&self.east) && self.south.lt(&point.lat)
            && self.west.lt(&point.lng)
    }

    /// The rectangle around a point that reaches `grid_size` pixels from it in
    /// each direction at a zoom level.
    pub fn from_point<D, X, M>(
        lat: Double,
        lng: Double,
        zoom: usize,
        grid_size: Double,
        geometry: &Geometry<D, X, M>,
    ) -> (around: Result<Bounds, UsageError>) where
        D: Fn(Marker, Marker) -> Double,
        X: Fn(Bounds, usize, Double) -> Bounds,
        M: Fn(Double, u32, Double) -> Double,

        ensures
            zoom >= ZOOM_LIMIT ==> around matches Err(UsageError::ZoomOutOfRange),
            zoom < ZOOM_LIMIT ==> around is Ok && geometry.extends(
                Bounds::at(Marker { lat, lng }),
                zoom,
                grid_size,
                around->Ok_0,
            ),
    {
        calculate_extended_bounds(
            &Bounds { north: lat, east: lng, south: lat, west: lng },
            zoom,
            grid_size,
            geometry,
        )
    }
}

/// A rectangle, widened by `grid_size` pixels on every side at a zoom level.
/// A zoom level that cannot be projected is refused.
pub fn calculate_extended_bounds<D, X, M>(
    bounds: &Bounds,
    zoom: usize,
    grid_size: Double,
    geometry: &Geometry<D, X, M>,
) -> (wider: Result<Bounds, UsageError>) where
    D: Fn(Marker, Marker) -> Double,
    X: Fn(Bounds, usize, Double) -> Bounds,
    M: Fn(Double, u32, Double) -> Double,

    ensures
        zoom >= ZOOM_LIMIT ==> wider matches Err(UsageError::ZoomOutOfRange),
        zoom < ZOOM_LIMIT ==> wider is Ok && geometry.extends(
            *bounds,
            zoom,
            grid_size,
            wider->Ok_0,
        ),
{
    if zoom >= ZOOM_LIMIT {
        Err(UsageError::ZoomOutOfRange)
    } else {
        Ok(geometry.widen(*bounds, zoom, grid_size))
    }
}

} // verus!
