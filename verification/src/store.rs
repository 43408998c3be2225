//! The store of markers: every marker of a map, in the order of arrival.

use vstd::prelude::*;
use crate::identity::IdentitySource;
use crate::marker::{Marker, UniqueMarker};

verus! {

/// The markers, all of them free.
pub open spec fn released(markers: Seq<UniqueMarker>) -> Seq<UniqueMarker> {
    Seq::new(markers.len(), |i: int| markers[i].released())
}

/// The points as new markers: each free, at its point, with the serial
/// numbers from `issued` on in order.
pub open spec fn wraps(points: Seq<Marker>, issued: nat, markers: Seq<UniqueMarker>) -> bool {
    &&& markers.len() == points.len()
    &&& forall|i: int|
        0 <= i < points.len() ==> {
            &&& (#[trigger] markers[i]).position() == points[i]
            &&& !markers[i].is_added
            &&& markers[i].uuid.serial == issued + i
        }
}

/// Every marker's serial number has been issued, and no two markers have the
/// same: each marker is told from every other by its identity.
pub open spec fn distinct_markers_below(markers: Seq<UniqueMarker>, issued: nat) -> bool {
    &&& forall|i: int| 0 <= i < markers.len() ==> (#[trigger] markers[i]).uuid.serial < issued
    &&& forall|i: int, j: int|
        0 <= i < j < markers.len() ==> (#[trigger] markers[i]).uuid.serial
            != (#[trigger] markers[j]).uuid.serial
}

/// Markers in the order in which they were put in. The order decides which
/// marker founds a cluster and which joins it.
#[derive(Debug)]
pub struct MarkerStore {
    pub markers: Vec<UniqueMarker>,
}

impl View for MarkerStore {
    type V = Seq<UniqueMarker>;

    open spec fn view(&self) -> Seq<UniqueMarker> {
        self.markers@
    }
}

impl MarkerStore {
    pub fn new() -> (store: MarkerStore)
        ensures
            store@ == Seq::<UniqueMarker>::empty(),
    {
        MarkerStore { markers: Vec::new() }
    }

    pub fn len(&self) -> (count: usize)
        ensures
            count == self@.len(),
    {
        self.markers.len()
    }

    /// Puts the points behind the markers that are there, in their order:
    /// each as a free marker with a new identity.
    pub fn append(&mut self, points: &Vec<Marker>, ids: &mut IdentitySource)
        requires
            old(ids).issued() + points@.len() <= u64::MAX,
        ensures
            final(self)@.len() == old(self)@.len() + points@.len(),
            final(self)@.take(old(self)@.len() as int) == old(self)@,
            wraps(points@, old(ids).issued(), final(self)@.skip(old(self)@.len() as int)),
            final(ids).issued() == old(ids).issued() + points@.len(),
            distinct_markers_below(old(self)@, old(ids).issued()) ==> distinct_markers_below(
                final(self)@,
                final(ids).issued(),
            ),
    {
        let ghost held: int = self.markers@.len() as int;
        let mut i: usize = 0;
        while i < points.len()
            invariant
                i <= points@.len(),
                held == old(self)@.len(),
                old(ids).issued() + points@.len() <= u64::MAX,
                ids.issued() == old(ids).issued() + i,
                self.markers@.len() == held + i,
                self.markers@.take(held) == old(self)@,
                forall|k: int|
                    0 <= k < i ==> {
                        &&& (#[trigger] self.markers@[held + k]).position() == points@[k]
                        &&& !self.markers@[held + k].is_added
                        &&& self.markers@[held + k].uuid.serial == old(ids).issued() + k
                    },
            decreases points@.len() - i,
        {
            let ghost before: Seq<UniqueMarker> = self.markers@;
            let marker: UniqueMarker = UniqueMarker::from(&points[i], ids);
            self.markers.push(marker);
            proof {
                assert(self.markers@.take(held) =~= before.take(held));
            }
            i += 1;
        }
        proof {
            let added: Seq<UniqueMarker> = self.markers@.skip(held);
            assert forall|k: int| 0 <= k < points@.len() implies {
                &&& (#[trigger] added[k]).position() == points@[k]
                &&& !added[k].is_added
                &&& added[k].uuid.serial == old(ids).issued() + k
            } by {
                assert(added[k] == self.markers@[held + k]);
            }
            if distinct_markers_below(old(self)@, old(ids).issued()) {
                let all: Seq<UniqueMarker> = self.markers@;
                assert forall|k: int| 0 <= k < all.len() implies if k < held {
                    all[k] == old(self)@[k]
                } else {
                    (#[trigger] all[k]).uuid.serial == old(ids).issued() + (k - held)
                } by {
                    if k < held {
                        assert(all.take(held)[k] == all[k]);
                    } else {
                        assert(all[held + (k - held)] == all[k]);
                    }
                }
            }
        }
    }

    /// Frees every marker: none is in a cluster any more.
    pub fn reset_consumed_flags(&mut self)
        ensures
            final(self)@ == released(old(self)@),
    {
        let count: usize = self.markers.len();
        let mut i: usize = 0;
        while i < count
            invariant
                i <= count,
                count == old(self)@.len(),
                self.markers@.len() == count,
                forall|k: int| 0 <= k < i ==> self.markers@[k] == old(self)@[k].released(),
                forall|k: int| i <= k < count ==> self.markers@[k] == old(self)@[k],
            decreases count - i,
        {
            let marker: UniqueMarker = self.markers[i];
            self.markers[i] = UniqueMarker {
                lat: marker.lat,
                lng: marker.lng,
                uuid: marker.uuid,
                is_added: false,
            };
            i += 1;
        }
        proof {
            assert(self.markers@ =~= released(old(self)@));
        }
    }

    /// Empties the store.
    pub fn clear(&mut self)
        ensures
            final(self)@ == Seq::<UniqueMarker>::empty(),
    {
        self.markers.clear();
    }

    /// Copies of the markers, in their order.
    pub fn to_vec(&self) -> (copies: Vec<UniqueMarker>)
        ensures
            copies@ == self@,
    {
        let mut copies: Vec<UniqueMarker> = Vec::new();
        let mut i: usize = 0;
        while i < self.markers.len()
            invariant
                i <= self.markers@.len(),
                copies@ == self.markers@.take(i as int),
            decreases self.markers@.len() - i,
        {
            copies.push(self.markers[i]);
            i += 1;
        }
        proof {
            assert(copies@ =~= self.markers@);
        }
        copies
    }
}

} // verus!
