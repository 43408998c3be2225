//! Clusters: groups of markers that a map shows as one point with a count.

use vstd::prelude::*;
use crate::bounds::Bounds;
use crate::double::Double;
use crate::geometry::{Geometry, UsageError, ZOOM_LIMIT};
use crate::identity::Identity;
use crate::marker::{Marker, UniqueMarker};

verus! {

/// A group of markers. `bounds` is the footprint of the cluster: the
/// rectangle around `center` within which a marker may join it.
#[derive(Debug)]
pub struct Cluster {
    pub uuid: Identity,
    pub size: u32,
    pub center: Marker,
    pub markers: Vec<UniqueMarker>,
    pub bounds: Bounds,
}

/// A cluster as a mathematical value.
pub struct ClusterView {
    pub uuid: Identity,
    pub size: u32,
    pub center: Marker,
    pub markers: Seq<UniqueMarker>,
    pub bounds: Bounds,
}

impl ClusterView {
    /// The size counts the members.
    pub open spec fn wf(&self) -> bool {
        self.size == self.markers.len()
    }

    /// The cluster that a single marker founds.
    pub open spec fn founded(uuid: Identity, point: UniqueMarker, bounds: Bounds) -> ClusterView {
        ClusterView { uuid, size: 1, center: point.position(), markers: seq![point], bounds }
    }

    /// The cluster with one more member, where it was.
    pub open spec fn joined(&self, point: UniqueMarker) -> ClusterView {
        ClusterView {
            uuid: self.uuid,
            size: (self.size + 1) as u32,
            center: self.center,
            markers: self.markers.push(point),
            bounds: self.bounds,
        }
    }

    /// The cluster with another center and footprint.
    pub open spec fn moved(&self, center: Marker, bounds: Bounds) -> ClusterView {
        ClusterView {
            uuid: self.uuid,
            size: self.size,
            center,
            markers: self.markers,
            bounds,
        }
    }

    /// `after` is this cluster once it has taken `point` in.
    ///
    /// Without averaging the cluster stays where its first member put it. With
    /// averaging the center moves to the mean that the geometry gave for the
    /// old center, weighted by the old size, and the new point; the footprint
    /// is what the geometry gave for the new center.
    pub open spec fn absorbs<D, X, M>(
        &self,
        point: UniqueMarker,
        zoom: usize,
        average_center: bool,
        grid_size: Double,
        geometry: &Geometry<D, X, M>,
        after: ClusterView,
    ) -> bool where
        D: Fn(Marker, Marker) -> Double,
        X: Fn(Bounds, usize, Double) -> Bounds,
        M: Fn(Double, u32, Double) -> Double,
     {
        if average_center {
            &&& after == self.joined(point).moved(after.center, after.bounds)
            &&& geometry.recenters(self.center, self.size, point.position(), after.center)
            &&& geometry.extends(Bounds::at(after.center), zoom, grid_size, after.bounds)
        } else {
            after == self.joined(point)
        }
    }
}

impl View for Cluster {
    type V = ClusterView;

    open spec fn view(&self) -> ClusterView {
        ClusterView {
            uuid: self.uuid,
            size: self.size,
            center: self.center,
            markers: self.markers@,
            bounds: self.bounds,
        }
    }
}

impl DeepView for Cluster {
    type V = ClusterView;

    open spec fn deep_view(&self) -> ClusterView {
        self@
    }
}

impl Cluster {
    /// A cluster of one marker, with the footprint given.
    pub fn new(uuid: Identity, point: &UniqueMarker, bounds: Bounds) -> (cluster: Cluster)
        ensures
            cluster@ == ClusterView::founded(uuid, *point, bounds),
            cluster@.wf(),
    {
        let mut markers: Vec<UniqueMarker> = Vec::new();
        markers.push(*point);
        Cluster { uuid, size: 1, center: point.center(), markers, bounds }
    }

    /// Takes one marker in. `moved` is the new center and footprint, where the
    /// cluster is to move.
    pub fn absorb(&mut self, new_point: &UniqueMarker, moved: Option<(Marker, Bounds)>)
        requires
            old(self)@.wf(),
            old(self).size < u32::MAX,
        ensures
            final(self)@.wf(),
            final(self)@ == match moved {
                Some((center, bounds)) => old(self)@.joined(*new_point).moved(center, bounds),
                None => old(self)@.joined(*new_point),
            },
    {
        self.size = self.size + 1;
        self.markers.push(*new_point);
        match moved {
            Some((center, bounds)) => {
                self.center = center;
                self.bounds = bounds;
            },
            None => {},
        }
    }

    /// Takes one marker in, and with `average_center` moves the center to the
    /// mean of all members and the footprint with it.
    ///
    /// Only the new footprint is projected. So a zoom level that cannot be
    /// projected is refused where the center is averaged, and the cluster is
    /// then left as it was; without averaging every zoom level is accepted.
    pub fn add_marker<D, X, M>(
        &mut self,
        new_point: &UniqueMarker,
        zoom: usize,
        average_center: bool,
        grid_size: Double,
        geometry: &Geometry<D, X, M>,
    ) -> (done: Result<(), UsageError>) where
        D: Fn(Marker, Marker) -> Double,
        X: Fn(Bounds, usize, Double) -> Bounds,
        M: Fn(Double, u32, Double) -> Double,

        requires
            old(self)@.wf(),
            old(self).size < u32::MAX,
        ensures
            final(self)@.wf(),
            average_center && zoom >= ZOOM_LIMIT ==> {
                &&& done matches Err(UsageError::ZoomOutOfRange)
                &&& final(self)@ == old(self)@
            },
            !(average_center && zoom >= ZOOM_LIMIT) ==> {
                &&& done is Ok
                &&& old(self)@.absorbs(
                    *new_point,
                    zoom,
                    average_center,
                    grid_size,
                    geometry,
                    final(self)@,
                )
            },
    {
        if average_center {
            if zoom >= ZOOM_LIMIT {
                return Err(UsageError::ZoomOutOfRange);
            }
            let center: Marker = geometry.recenter(self.center, self.size, new_point.center());
            let bounds: Bounds = geometry.widen(
                Bounds { north: center.lat, east: center.lng, south: center.lat, west: center.lng },
                zoom,
                grid_size,
            );
            self.absorb(new_point, Some((center, bounds)));
        } else {
            self.absorb(new_point, None);
        }
        Ok(())
    }
}

impl Clone for Cluster {
    /// A copy of the cluster, members and all.
    fn clone(&self) -> (copy: Cluster)
        ensures
            copy@ == self@,
    {
        let mut markers: Vec<UniqueMarker> = Vec::new();
        let mut i: usize = 0;
        while i < self.markers.len()
            invariant
                i <= self.markers@.len(),
                markers@ == self.markers@.take(i as int),
            decreases self.markers@.len() - i,
        {
            markers.push(self.markers[i]);
            i += 1;
        }
        assert(markers@ =~= self.markers@);
        Cluster {
            uuid: self.uuid,
            size: self.size,
            center: self.center,
            markers,
            bounds: self.bounds,
        }
    }
}

} // verus!
