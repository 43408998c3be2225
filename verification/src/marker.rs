//! Markers: the points that are clustered.

use vstd::prelude::*;
use vstd::std_specs::cmp::PartialEqSpecImpl;
use crate::double::Double;
use crate::identity::{Identity, IdentitySource};

verus! {

/// A geographic point, in degrees.
#[derive(Clone, Copy, Debug, PartialEq, Eq, Structural)]
pub struct Marker {
    pub lat: Double,
    pub lng: Double,
}

/// A marker with an identity of its own, and a flag that says whether it has
/// been given to a cluster at the present zoom level.
#[derive(Clone, Copy, Debug)]
pub struct UniqueMarker {
    pub lat: Double,
    pub lng: Double,
    pub uuid: Identity,
    pub is_added: bool,
}

impl UniqueMarker {
    /// Where the marker is.
    pub open spec fn position(&self) -> Marker {
        Marker { lat: self.lat, lng: self.lng }
    }

    /// The marker with its flag set.
    pub open spec fn consumed(&self) -> UniqueMarker {
        UniqueMarker { lat: self.lat, lng: self.lng, uuid: self.uuid, is_added: true }
    }

    /// The marker with its flag cleared.
    pub open spec fn released(&self) -> UniqueMarker {
        UniqueMarker { lat: self.lat, lng: self.lng, uuid: self.uuid, is_added: false }
    }

    /// Wraps a point: same coordinates, a new identity, not yet in any cluster.
    pub fn from(point: &Marker, ids: &mut IdentitySource) -> (marker: UniqueMarker)
        requires
            old(ids).issued() < u64::MAX,
        ensures
            marker.position() == *point,
            !marker.is_added,
            marker.uuid.serial == old(ids).issued(),
            final(ids).issued() == old(ids).issued() + 1,
    {
        UniqueMarker { lat: point.lat, lng: point.lng, uuid: ids.issue(), is_added: false }
    }

    pub fn center(&self) -> (point: Marker)
        ensures
            point == self.position(),
    {
        Marker { lat: self.lat, lng: self.lng }
    }
}

/// Two markers are equal when they are the same marker, wherever they lie.
impl PartialEq for UniqueMarker {
    fn eq(&self, other: &UniqueMarker) -> (equal: bool) {
        self.uuid == other.uuid
    }
}

impl PartialEqSpecImpl for UniqueMarker {
    open spec fn obeys_eq_spec() -> bool {
        true
    }

    open spec fn eq_spec(&self, other: &UniqueMarker) -> bool {
        self.uuid == other.uuid
    }
}

} // verus!
