//! Markers that lie at one place.

use vstd::prelude::*;
use crate::bounds::Bounds;
use crate::cluster::ClusterView;
use crate::clustering::{assigns, leads_to, measured, passes, settles, step, swept, Grouping};
use crate::config::Config;
use crate::double::Double;
use crate::geometry::Geometry;
use crate::identity::Identity;
use crate::marker::{Marker, UniqueMarker};
use crate::nearest::{choice, in_reach, is_nearest, lemma_nearest_is, nearest};

verus! {

/// The geometry lets a marker at `place` join a cluster centered at `place`:
/// whatever distance it gives from the place to itself is in reach, whatever
/// footprint it gives around the place holds the place, and, where centers
/// are averaged, whatever mean it gives of the place with itself is the
/// place.
pub open spec fn gathers<D, X, M>(
    geometry: &Geometry<D, X, M>,
    place: Marker,
    zoom: usize,
    config: Config,
) -> bool where
    D: Fn(Marker, Marker) -> Double,
    X: Fn(Bounds, usize, Double) -> Bounds,
    M: Fn(Double, u32, Double) -> Double,
 {
    &&& forall|km: Double| #[trigger] geometry.measures(place, place, km) ==> in_reach(km)
    &&& forall|around: Bounds| #[trigger]
        geometry.extends(Bounds::at(place), zoom, config.grid_size, around) ==> around.holds(place)
    &&& config.average_center ==> forall|count: u32, moved: Marker| #[trigger]
        geometry.recenters(place, count, place, moved) ==> moved == place
}

/// Free markers that all lie at `place`, inside the bounds.
pub open spec fn all_at(markers: Seq<UniqueMarker>, place: Marker, map_bounds: Bounds) -> bool {
    &&& map_bounds.holds(place)
    &&& forall|i: int|
        0 <= i < markers.len() ==> (#[trigger] markers[i]).position() == place
            && !markers[i].is_added
}

/// After `k` markers at one place, a pass that began without clusters holds
/// one cluster, at that place, of those `k` markers.
pub proof fn lemma_gathered_so_far<D, X, M>(
    geometry: &Geometry<D, X, M>,
    trace: Seq<Grouping>,
    markers: Seq<UniqueMarker>,
    place: Marker,
    map_bounds: Bounds,
    zoom: usize,
    config: Config,
    k: int,
) where
    D: Fn(Marker, Marker) -> Double,
    X: Fn(Bounds, usize, Double) -> Bounds,
    M: Fn(Double, u32, Double) -> Double,

    requires
        passes(geometry, trace, markers, map_bounds, zoom, config),
        trace.first().clusters.len() == 0,
        markers.len() <= u32::MAX,
        all_at(markers, place, map_bounds),
        gathers(geometry, place, zoom, config),
        0 <= k <= markers.len(),
    ensures
        k == 0 ==> trace[k].clusters.len() == 0,
        k > 0 ==> {
            &&& trace[k].clusters.len() == 1
            &&& trace[k].clusters[0].center == place
            &&& trace[k].clusters[0].bounds.holds(place)
            &&& trace[k].clusters[0].size == k
            &&& trace[k].clusters[0].markers == swept(markers, map_bounds).take(k)
        },
    decreases k,
{
    if k > 0 {
        lemma_gathered_so_far(geometry, trace, markers, place, map_bounds, zoom, config, k - 1);
        let marker: UniqueMarker = markers[k - 1];
        let before: Seq<ClusterView> = trace[k - 1].clusters;
        let after: Seq<ClusterView> = trace[k].clusters;
        assert(step(geometry, trace[k - 1], marker, map_bounds, zoom, config, trace[k]));
        let holder: Identity = choose|holder: Identity| #[trigger]
            assigns(
                geometry,
                before,
                marker.consumed(),
                zoom,
                config.average_center,
                config.grid_size,
                trace[k - 1].issued,
                after,
                holder,
                trace[k].issued,
            );
        let distances: Seq<Double> = choose|distances: Seq<Double>|
            {
                &&& #[trigger] measured(geometry, before, marker.consumed().position(), distances)
                &&& settles(
                    geometry,
                    before,
                    marker.consumed(),
                    distances,
                    zoom,
                    config.average_center,
                    config.grid_size,
                    trace[k - 1].issued,
                    after,
                    holder,
                    trace[k].issued,
                )
            };
        let all: Seq<UniqueMarker> = swept(markers, map_bounds);
        assert(all[k - 1] == marker.consumed());
        if k == 1 {
            assert(nearest(distances) is None);
            assert(after[0] == after.last());
            assert(after[0].markers =~= all.take(1));
        } else {
            assert(geometry.measures(before[0].center, place, distances[0]));
            assert(is_nearest(distances, 0));
            lemma_nearest_is(distances, 0);
            assert(choice(before, place, distances) == Some(0int));
            assert(after[0].markers =~= all.take(k));
        }
    }
}

/// Markers that lie at one place, put into the store any number of times and
/// clustered in one pass that begins without clusters, make a single cluster
/// that holds them all, in their order and centered at the place, provided
/// that the place is inside the bounds and that the geometry lets a marker
/// at the place join a cluster centered there.
pub proof fn lemma_identical_markers_make_one_cluster<D, X, M>(
    geometry: &Geometry<D, X, M>,
    start: Grouping,
    markers: Seq<UniqueMarker>,
    place: Marker,
    map_bounds: Bounds,
    zoom: usize,
    config: Config,
    end: Grouping,
) where
    D: Fn(Marker, Marker) -> Double,
    X: Fn(Bounds, usize, Double) -> Bounds,
    M: Fn(Double, u32, Double) -> Double,

    requires
        leads_to(geometry, start, markers, map_bounds, zoom, config, end),
        start.clusters.len() == 0,
        0 < markers.len() <= u32::MAX,
        all_at(markers, place, map_bounds),
        gathers(geometry, place, zoom, config),
    ensures
        end.clusters.len() == 1,
        end.clusters[0].size == markers.len(),
        end.clusters[0].center == place,
        end.clusters[0].markers == swept(markers, map_bounds),
{
    let trace: Seq<Grouping> = choose|trace: Seq<Grouping>|
        {
            &&& #[trigger] passes(geometry, trace, markers, map_bounds, zoom, config)
            &&& trace.first() == start
            &&& trace.last() == end
        };
    lemma_gathered_so_far(
        geometry,
        trace,
        markers,
        place,
        map_bounds,
        zoom,
        config,
        markers.len() as int,
    );
    assert(swept(markers, map_bounds).take(markers.len() as int) =~= swept(markers, map_bounds));
}

} // verus!
