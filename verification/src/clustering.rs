//! Giving markers to clusters.

use std::collections::HashSet;
use vstd::prelude::*;
use crate::bounds::Bounds;
use crate::cluster::{Cluster, ClusterView};
use crate::config::Config;
use crate::double::Double;
use crate::geometry::{Geometry, UsageError, ZOOM_LIMIT};
use crate::identity::{Identity, IdentitySource};
use crate::marker::{Marker, UniqueMarker};
use crate::nearest::{choice, closest_cluster};

verus! {

broadcast use vstd::std_specs::hash::group_hash_axioms;

/// Every cluster's size counts its members.
pub open spec fn all_wf(clusters: Seq<ClusterView>) -> bool {
    forall|i: int| 0 <= i < clusters.len() ==> (#[trigger] clusters[i]).wf()
}

/// Every cluster can take `more` markers in without its size leaving `u32`.
pub open spec fn all_have_room(clusters: Seq<ClusterView>, more: nat) -> bool {
    forall|i: int| 0 <= i < clusters.len() ==> (#[trigger] clusters[i]).size + more <= u32::MAX
}

/// `distances` holds, for each cluster in order, a distance that the geometry
/// gave from the cluster's center to the point.
pub open spec fn measured<D, X, M>(
    geometry: &Geometry<D, X, M>,
    clusters: Seq<ClusterView>,
    point: Marker,
    distances: Seq<Double>,
) -> bool where
    D: Fn(Marker, Marker) -> Double,
    X: Fn(Bounds, usize, Double) -> Bounds,
    M: Fn(Double, u32, Double) -> Double,
 {
    &&& distances.len() == clusters.len()
    &&& forall|i: int|
        #![trigger distances[i]]
        0 <= i < clusters.len() ==> geometry.measures(clusters[i].center, point, distances[i])
}

/// Whether assigning a point projects anything: it does where the point
/// founds a cluster, whose footprint is then projected, and where centers are
/// averaged, since the footprint then follows the center.
pub open spec fn projects(picked: Option<int>, average_center: bool) -> bool {
    picked is None || average_center
}

/// What becomes of the clusters once the distances are known.
///
/// Where a cluster is chosen, it takes the point in and `identity` is its
/// own; no identity is spent. Where none is, a new cluster of this one point
/// is added at the end, with the footprint that the geometry gave for the
/// point; its identity carries the next serial number, `issued`. Nothing is
/// projected at a zoom level that cannot be.
pub open spec fn settles<D, X, M>(
    geometry: &Geometry<D, X, M>,
    before: Seq<ClusterView>,
    point: UniqueMarker,
    distances: Seq<Double>,
    zoom: usize,
    average_center: bool,
    grid_size: Double,
    issued: nat,
    after: Seq<ClusterView>,
    identity: Identity,
    issued_after: nat,
) -> bool where
    D: Fn(Marker, Marker) -> Double,
    X: Fn(Bounds, usize, Double) -> Bounds,
    M: Fn(Double, u32, Double) -> Double,
 {
    let picked = choice(before, point.position(), distances);
    &&& projects(picked, average_center) ==> zoom < ZOOM_LIMIT
    &&& match picked {
        Some(i) => {
            &&& after.len() == before.len()
            &&& after == before.update(i, after[i])
            &&& before[i].absorbs(point, zoom, average_center, grid_size, geometry, after[i])
            &&& identity == before[i].uuid
            &&& issued_after == issued
        },
        None => {
            &&& after.len() == before.len() + 1
            &&& after == before.push(ClusterView::founded(identity, point, after.last().bounds))
            &&& geometry.extends(Bounds::at(point.position()), zoom, grid_size, after.last().bounds)
            &&& identity.serial == issued
            &&& issued_after == issued + 1
        },
    }
}

/// The clusters `after` are the clusters `before` with `point` assigned:
/// for some distances that the geometry gave, `settles` holds.
pub open spec fn assigns<D, X, M>(
    geometry: &Geometry<D, X, M>,
    before: Seq<ClusterView>,
    point: UniqueMarker,
    zoom: usize,
    average_center: bool,
    grid_size: Double,
    issued: nat,
    after: Seq<ClusterView>,
    identity: Identity,
    issued_after: nat,
) -> bool where
    D: Fn(Marker, Marker) -> Double,
    X: Fn(Bounds, usize, Double) -> Bounds,
    M: Fn(Double, u32, Double) -> Double,
 {
    exists|distances: Seq<Double>|
        {
            &&& #[trigger] measured(geometry, before, point.position(), distances)
            &&& settles(
                geometry,
                before,
                point,
                distances,
                zoom,
                average_center,
                grid_size,
                issued,
                after,
                identity,
                issued_after,
            )
        }
}

/// The point cannot be assigned: the zoom level cannot be projected, and for
/// some distances that the geometry gave the point would found a cluster, or
/// join one whose center is averaged.
pub open spec fn refuses<D, X, M>(
    geometry: &Geometry<D, X, M>,
    clusters: Seq<ClusterView>,
    point: UniqueMarker,
    zoom: usize,
    average_center: bool,
) -> bool where
    D: Fn(Marker, Marker) -> Double,
    X: Fn(Bounds, usize, Double) -> Bounds,
    M: Fn(Double, u32, Double) -> Double,
 {
    &&& zoom >= ZOOM_LIMIT
    &&& exists|distances: Seq<Double>|
        {
            &&& #[trigger] measured(geometry, clusters, point.position(), distances)
            &&& projects(choice(clusters, point.position(), distances), average_center)
        }
}

/// Asks the geometry for the distance from each cluster's center to a point.
pub fn measure_clusters<D, X, M>(
    clusters: &Vec<Cluster>,
    new_point: &UniqueMarker,
    geometry: &Geometry<D, X, M>,
) -> (distances: Vec<Double>) where
    D: Fn(Marker, Marker) -> Double,
    X: Fn(Bounds, usize, Double) -> Bounds,
    M: Fn(Double, u32, Double) -> Double,

    ensures
        measured(geometry, clusters.deep_view(), new_point.position(), distances@),
{
    let mut distances: Vec<Double> = Vec::new();
    let mut i: usize = 0;
    while i < clusters.len()
        invariant
            i <= clusters@.len(),
            distances@.len() == i,
            forall|k: int|
                #![trigger distances@[k]]
                0 <= k < i ==> geometry.measures(
                    clusters@[k].center,
                    new_point.position(),
                    distances@[k],
                ),
        decreases clusters@.len() - i,
    {
        let km: Double = distance_between_markers(&clusters[i].center, new_point, geometry);
        distances.push(km);
        i += 1;
    }
    proof {
        assert forall|k: int|
            #![trigger distances@[k]]
            0 <= k < clusters.deep_view().len() implies geometry.measures(
            clusters.deep_view()[k].center,
            new_point.position(),
            distances@[k],
        ) by {
            assert(clusters.deep_view()[k] == clusters@[k]@);
        }
    }
    distances
}

/// The great-circle distance between a cluster's center and a marker, as the
/// geometry gives it.
pub fn distance_between_markers<D, X, M>(
    center: &Marker,
    point: &UniqueMarker,
    geometry: &Geometry<D, X, M>,
) -> (km: Double) where
    D: Fn(Marker, Marker) -> Double,
    X: Fn(Bounds, usize, Double) -> Bounds,
    M: Fn(Double, u32, Double) -> Double,

    ensures
        geometry.measures(*center, point.position(), km),
{
    geometry.measure(*center, point.center())
}

/// Gives one marker to the cluster whose center is nearest, if the marker
/// lies inside that cluster's footprint, and otherwise founds a new cluster
/// on it. Returns the identity of the cluster that now holds the marker.
///
/// A zoom level that cannot be projected is refused where something is to be
/// projected, that is, where the marker founds a cluster or centers are
/// averaged; nothing is changed then. A marker that joins a cluster whose
/// center stays is taken in at every zoom level.
pub fn add_to_closest_cluster<D, X, M>(
    clusters: &mut Vec<Cluster>,
    new_point: &UniqueMarker,
    zoom: usize,
    average_center: bool,
    grid_size: Double,
    ids: &mut IdentitySource,
    geometry: &Geometry<D, X, M>,
) -> (holder: Result<Identity, UsageError>) where
    D: Fn(Marker, Marker) -> Double,
    X: Fn(Bounds, usize, Double) -> Bounds,
    M: Fn(Double, u32, Double) -> Double,

    requires
        all_wf(old(clusters).deep_view()),
        all_have_room(old(clusters).deep_view(), 1),
        old(ids).issued() < u64::MAX,
    ensures
        all_wf(final(clusters).deep_view()),
        zoom < ZOOM_LIMIT ==> holder is Ok,
        match holder {
            Ok(identity) => assigns(
                geometry,
                old(clusters).deep_view(),
                *new_point,
                zoom,
                average_center,
                grid_size,
                old(ids).issued(),
                final(clusters).deep_view(),
                identity,
                final(ids).issued(),
            ),
            Err(refused) => {
                &&& refused == UsageError::ZoomOutOfRange
                &&& refuses(geometry, old(clusters).deep_view(), *new_point, zoom, average_center)
                &&& final(clusters).deep_view() == old(clusters).deep_view()
                &&& final(ids).issued() == old(ids).issued()
            },
        },
{
    let ghost before: Seq<ClusterView> = clusters.deep_view();
    let distances: Vec<Double> = measure_clusters(clusters, new_point, geometry);
    match closest_cluster(clusters, new_point, &distances) {
        Some(index) => {
            proof {
                assert(before[index as int] == clusters@[index as int]@);
            }
            match clusters[index].add_marker(new_point, zoom, average_center, grid_size, geometry) {
                Ok(()) => {},
                Err(refused) => {
                    proof {
                        assert(clusters.deep_view() =~= before) by {
                            assert forall|i: int| 0 <= i < before.len() implies clusters.deep_view()[i]
                                == before[i] by {
                                assert(clusters.deep_view()[i] == clusters@[i]@);
                                assert(before[i] == old(clusters)@[i]@);
                            }
                        }
                    }
                    return Err(refused);
                },
            }
            let identity: Identity = clusters[index].uuid;
            proof {
                let after: Seq<ClusterView> = clusters.deep_view();
                assert(after[index as int] == clusters@[index as int]@);
                assert forall|i: int| 0 <= i < after.len() implies (#[trigger] after[i]).wf() by {
                    assert(after[i] == clusters@[i]@);
                    if i != index {
                        assert(before[i] == old(clusters)@[i]@);
                    }
                }
                assert(after =~= before.update(index as int, after[index as int])) by {
                    assert forall|i: int| 0 <= i < after.len() && i != index implies after[i]
                        == before[i] by {
                        assert(after[i] == clusters@[i]@);
                        assert(before[i] == old(clusters)@[i]@);
                    }
                }
                assert(settles(
                    geometry,
                    before,
                    *new_point,
                    distances@,
                    zoom,
                    average_center,
                    grid_size,
                    old(ids).issued(),
                    after,
                    identity,
                    ids.issued(),
                ));
            }
            Ok(identity)
        },
        None => {
            match Bounds::from_point(new_point.lat, new_point.lng, zoom, grid_size, geometry) {
                Ok(bounds) => {
                    let uuid: Identity = ids.issue();
                    clusters.push(Cluster::new(uuid, new_point, bounds));
                    proof {
                        let after: Seq<ClusterView> = clusters.deep_view();
                        let founded: ClusterView = ClusterView::founded(uuid, *new_point, bounds);
                        assert(after =~= before.push(founded)) by {
                            assert forall|i: int| 0 <= i < after.len() implies after[i]
                                == before.push(founded)[i] by {
                                assert(after[i] == clusters@[i]@);
                                if i < before.len() {
                                    assert(before[i] == old(clusters)@[i]@);
                                }
                            }
                        }
                        assert(after.last() == founded);
                        assert(settles(
                            geometry,
                            before,
                            *new_point,
                            distances@,
                            zoom,
                            average_center,
                            grid_size,
                            old(ids).issued(),
                            after,
                            uuid,
                            ids.issued(),
                        ));
                    }
                    Ok(uuid)
                },
                Err(refused) => Err(refused),
            }
        },
    }
}

/// How many of the markers are in no cluster yet.
pub open spec fn pending(markers: Seq<UniqueMarker>) -> nat
    decreases markers.len(),
{
    if markers.len() == 0 {
        0
    } else if markers.first().is_added {
        pending(markers.drop_first())
    } else {
        1 + pending(markers.drop_first())
    }
}

/// The clusters at one moment of a pass over the markers, with the number of
/// identities spent so far and the serial numbers of the clusters that the
/// pass recorded as changed.
pub struct Grouping {
    pub clusters: Seq<ClusterView>,
    pub issued: nat,
    pub changed: Set<u64>,
}

/// Whether a pass takes the marker up: it is in no cluster yet and lies
/// strictly inside the bounds.
pub open spec fn eligible(marker: UniqueMarker, map_bounds: Bounds) -> bool {
    !marker.is_added && map_bounds.holds(marker.position())
}

/// The markers after a pass: those that the pass took up are flagged, the
/// others are as they were.
pub open spec fn swept(markers: Seq<UniqueMarker>, map_bounds: Bounds) -> Seq<UniqueMarker> {
    Seq::new(
        markers.len(),
        |i: int|
            if eligible(markers[i], map_bounds) {
                markers[i].consumed()
            } else {
                markers[i]
            },
    )
}

/// One step of a pass: a marker that is not eligible changes nothing; an
/// eligible one is flagged and assigned, and the cluster that holds it is
/// recorded as changed.
pub open spec fn step<D, X, M>(
    geometry: &Geometry<D, X, M>,
    before: Grouping,
    marker: UniqueMarker,
    map_bounds: Bounds,
    zoom: usize,
    config: Config,
    after: Grouping,
) -> bool where
    D: Fn(Marker, Marker) -> Double,
    X: Fn(Bounds, usize, Double) -> Bounds,
    M: Fn(Double, u32, Double) -> Double,
 {
    if eligible(marker, map_bounds) {
        exists|holder: Identity|
            {
                &&& #[trigger] assigns(
                    geometry,
                    before.clusters,
                    marker.consumed(),
                    zoom,
                    config.average_center,
                    config.grid_size,
                    before.issued,
                    after.clusters,
                    holder,
                    after.issued,
                )
                &&& after.changed == before.changed.insert(holder.serial)
            }
    } else {
        after == before
    }
}

/// `trace` holds the groupings that a pass goes through: one before each
/// marker and one at the end, each following from the one before by `step`.
pub open spec fn passes<D, X, M>(
    geometry: &Geometry<D, X, M>,
    trace: Seq<Grouping>,
    markers: Seq<UniqueMarker>,
    map_bounds: Bounds,
    zoom: usize,
    config: Config,
) -> bool where
    D: Fn(Marker, Marker) -> Double,
    X: Fn(Bounds, usize, Double) -> Bounds,
    M: Fn(Double, u32, Double) -> Double,
 {
    &&& trace.len() == markers.len() + 1
    &&& forall|k: int|
        #![trigger markers[k]]
        0 <= k < markers.len() ==> step(
            geometry,
            trace[k],
            markers[k],
            map_bounds,
            zoom,
            config,
            trace[k + 1],
        )
}

/// A pass over `markers`, in their order, leads from `start` to `end`.
pub open spec fn leads_to<D, X, M>(
    geometry: &Geometry<D, X, M>,
    start: Grouping,
    markers: Seq<UniqueMarker>,
    map_bounds: Bounds,
    zoom: usize,
    config: Config,
    end: Grouping,
) -> bool where
    D: Fn(Marker, Marker) -> Double,
    X: Fn(Bounds, usize, Double) -> Bounds,
    M: Fn(Double, u32, Double) -> Double,
 {
    exists|trace: Seq<Grouping>|
        {
            &&& #[trigger] passes(geometry, trace, markers, map_bounds, zoom, config)
            &&& trace.first() == start
            &&& trace.last() == end
        }
}

/// A pass over `markers` stops before marker `k`: the markers before it lead
/// from `start` to `at`, and marker `k` is eligible but cannot be assigned.
pub open spec fn stops_at<D, X, M>(
    geometry: &Geometry<D, X, M>,
    start: Grouping,
    markers: Seq<UniqueMarker>,
    map_bounds: Bounds,
    zoom: usize,
    config: Config,
    k: int,
    at: Grouping,
) -> bool where
    D: Fn(Marker, Marker) -> Double,
    X: Fn(Bounds, usize, Double) -> Bounds,
    M: Fn(Double, u32, Double) -> Double,
 {
    &&& 0 <= k < markers.len()
    &&& leads_to(geometry, start, markers.take(k), map_bounds, zoom, config, at)
    &&& eligible(markers[k], map_bounds)
    &&& refuses(geometry, at.clusters, markers[k].consumed(), zoom, config.average_center)
}

/// A pass over `markers` was refused part of the way: it stopped before some
/// marker, with the clusters and the identity count of `at`; the markers
/// before that one have been swept, that one and those behind it are as they
/// were.
pub open spec fn halts<D, X, M>(
    geometry: &Geometry<D, X, M>,
    start: Grouping,
    markers: Seq<UniqueMarker>,
    map_bounds: Bounds,
    zoom: usize,
    config: Config,
    clusters_after: Seq<ClusterView>,
    issued_after: nat,
    markers_after: Seq<UniqueMarker>,
) -> bool where
    D: Fn(Marker, Marker) -> Double,
    X: Fn(Bounds, usize, Double) -> Bounds,
    M: Fn(Double, u32, Double) -> Double,
 {
    exists|k: int, changed: Set<u64>|
        {
            &&& #[trigger] stops_at(
                geometry,
                start,
                markers,
                map_bounds,
                zoom,
                config,
                k,
                Grouping { clusters: clusters_after, issued: issued_after, changed },
            )
            &&& markers_after == swept(markers.take(k), map_bounds) + markers.skip(k)
        }
}

/// No marker is eligible: each is in a cluster already or not strictly
/// inside the bounds.
pub open spec fn none_eligible(markers: Seq<UniqueMarker>, map_bounds: Bounds) -> bool {
    forall|i: int| 0 <= i < markers.len() ==> !eligible(#[trigger] markers[i], map_bounds)
}

/// Goes through the markers in order and assigns each that is in no cluster
/// yet and lies strictly inside `map_bounds`, flagging it. Returns the serial
/// numbers of the clusters that took a marker in or were founded.
///
/// A pass that finds no marker to take up changes nothing and returns the
/// empty set, at every zoom level. At a zoom level that cannot be projected
/// the pass stops before the first marker whose assignment would project
/// something: the markers before it have been taken up, that marker and the
/// markers behind it are as they were.
pub fn cluster_markers<D, X, M>(
    existing_clusters: &mut Vec<Cluster>,
    markers: &mut Vec<UniqueMarker>,
    map_bounds: &Bounds,
    zoom: usize,
    config: &Config,
    ids: &mut IdentitySource,
    geometry: &Geometry<D, X, M>,
) -> (modified: Result<HashSet<u64>, UsageError>) where
    D: Fn(Marker, Marker) -> Double,
    X: Fn(Bounds, usize, Double) -> Bounds,
    M: Fn(Double, u32, Double) -> Double,

    requires
        all_wf(old(existing_clusters).deep_view()),
        all_have_room(old(existing_clusters).deep_view(), pending(old(markers)@)),
        pending(old(markers)@) <= u32::MAX,
        old(ids).issued() + pending(old(markers)@) <= u64::MAX,
    ensures
        all_wf(final(existing_clusters).deep_view()),
        zoom < ZOOM_LIMIT ==> modified is Ok,
        none_eligible(old(markers)@, *map_bounds) ==> {
            &&& modified matches Ok(changed) && changed@ == Set::<u64>::empty()
            &&& final(existing_clusters).deep_view() == old(existing_clusters).deep_view()
            &&& final(markers)@ == old(markers)@
            &&& final(ids).issued() == old(ids).issued()
        },
        modified matches Ok(changed) ==> {
            &&& final(markers)@ == swept(old(markers)@, *map_bounds)
            &&& leads_to(
                geometry,
                Grouping {
                    clusters: old(existing_clusters).deep_view(),
                    issued: old(ids).issued(),
                    changed: Set::empty(),
                },
                old(markers)@,
                *map_bounds,
                zoom,
                *config,
                Grouping {
                    clusters: final(existing_clusters).deep_view(),
                    issued: final(ids).issued(),
                    changed: changed@,
                },
            )
        },
        modified matches Err(refused) ==> refused == UsageError::ZoomOutOfRange,
        modified is Err ==> halts(
            geometry,
            Grouping {
                clusters: old(existing_clusters).deep_view(),
                issued: old(ids).issued(),
                changed: Set::empty(),
            },
            old(markers)@,
            *map_bounds,
            zoom,
            *config,
            final(existing_clusters).deep_view(),
            final(ids).issued(),
            final(markers)@,
        ),
{
    let mut clusters_modified: HashSet<u64> = HashSet::new();
    let count: usize = markers.len();
    let ghost start: Grouping = Grouping {
        clusters: existing_clusters.deep_view(),
        issued: ids.issued(),
        changed: Set::empty(),
    };
    let ghost mut trace: Seq<Grouping> = seq![start];
    let mut i: usize = 0;
    proof {
        assert(markers@.skip(0) =~= markers@);
    }
    while i < count
        invariant
            count == old(markers)@.len(),
            i <= count,
            markers@.len() == count,
            forall|k: int| 0 <= k < i ==> markers@[k] == swept(old(markers)@, *map_bounds)[k],
            forall|k: int| i <= k < count ==> markers@[k] == old(markers)@[k],
            all_wf(existing_clusters.deep_view()),
            all_have_room(existing_clusters.deep_view(), pending(old(markers)@.skip(i as int))),
            pending(old(markers)@.skip(i as int)) <= u32::MAX,
            ids.issued() + pending(old(markers)@.skip(i as int)) <= u64::MAX,
            start == (Grouping {
                clusters: old(existing_clusters).deep_view(),
                issued: old(ids).issued(),
                changed: Set::empty(),
            }),
            trace.len() == i + 1,
            trace.first() == start,
            trace.last() == (Grouping {
                clusters: existing_clusters.deep_view(),
                issued: ids.issued(),
                changed: clusters_modified@,
            }),
            forall|k: int|
                #![trigger old(markers)@[k]]
                0 <= k < i ==> step(
                    geometry,
                    trace[k],
                    old(markers)@[k],
                    *map_bounds,
                    zoom,
                    *config,
                    trace[k + 1],
                ),
            none_eligible(old(markers)@.take(i as int), *map_bounds) ==> trace.last() == start,
        decreases count - i,
    {
        let point: UniqueMarker = markers[i];
        let ghost before: Grouping = trace.last();
        let ghost rest: Seq<UniqueMarker> = old(markers)@.skip(i as int);
        proof {
            assert(rest.first() == point);
            assert(rest.drop_first() =~= old(markers)@.skip(i + 1));
            assert(old(markers)@.take(i + 1)[i as int] == point);
            assert forall|k: int| 0 <= k < i implies old(markers)@.take(i as int)[k] == old(
                markers,
            )@.take(i + 1)[k] by {}
        }
        if !point.is_added && map_bounds.contains(&point) {
            let taken: UniqueMarker = UniqueMarker {
                lat: point.lat,
                lng: point.lng,
                uuid: point.uuid,
                is_added: true,
            };
            match add_to_closest_cluster(
                existing_clusters,
                &taken,
                zoom,
                config.average_center,
                config.grid_size,
                ids,
                geometry,
            ) {
                Ok(holder) => {
                    markers[i] = taken;
                    clusters_modified.insert(holder.serial);
                    proof {
                        lemma_assigns_keeps_room(
                            geometry,
                            before.clusters,
                            taken,
                            zoom,
                            config.average_center,
                            config.grid_size,
                            before.issued,
                            existing_clusters.deep_view(),
                            holder,
                            ids.issued(),
                            pending(rest),
                        );
                        let after: Grouping = Grouping {
                            clusters: existing_clusters.deep_view(),
                            issued: ids.issued(),
                            changed: clusters_modified@,
                        };
                        assert(assigns(
                            geometry,
                            before.clusters,
                            point.consumed(),
                            zoom,
                            config.average_center,
                            config.grid_size,
                            before.issued,
                            after.clusters,
                            holder,
                            after.issued,
                        ));
                    }
                },
                Err(refused) => {
                    proof {
                        let seen: Seq<UniqueMarker> = old(markers)@.take(i as int);
                        assert forall|k: int|
                            #![trigger seen[k]]
                            0 <= k < seen.len() implies step(
                            geometry,
                            trace[k],
                            seen[k],
                            *map_bounds,
                            zoom,
                            *config,
                            trace[k + 1],
                        ) by {
                            assert(seen[k] == old(markers)@[k]);
                        }
                        assert(passes(geometry, trace, seen, *map_bounds, zoom, *config));
                        assert(stops_at(
                            geometry,
                            start,
                            old(markers)@,
                            *map_bounds,
                            zoom,
                            *config,
                            i as int,
                            before,
                        ));
                        assert(markers@ =~= swept(seen, *map_bounds) + old(markers)@.skip(
                            i as int,
                        ));
                    }
                    return Err(refused);
                },
            }
        }
        proof {
            let after: Grouping = Grouping {
                clusters: existing_clusters.deep_view(),
                issued: ids.issued(),
                changed: clusters_modified@,
            };
            assert(step(geometry, before, point, *map_bounds, zoom, *config, after));
            trace = trace.push(after);
        }
        i += 1;
    }
    proof {
        assert(markers@ =~= swept(old(markers)@, *map_bounds));
        assert(passes(geometry, trace, old(markers)@, *map_bounds, zoom, *config));
        assert(old(markers)@.take(count as int) =~= old(markers)@);
        if none_eligible(old(markers)@, *map_bounds) {
            assert(markers@ =~= old(markers)@);
        }
    }
    Ok(clusters_modified)
}

/// After a marker is assigned, clusters that had room for `more` markers
/// have room for one fewer.
pub proof fn lemma_assigns_keeps_room<D, X, M>(
    geometry: &Geometry<D, X, M>,
    before: Seq<ClusterView>,
    point: UniqueMarker,
    zoom: usize,
    average_center: bool,
    grid_size: Double,
    issued: nat,
    after: Seq<ClusterView>,
    holder: Identity,
    issued_after: nat,
    more: nat,
) where
    D: Fn(Marker, Marker) -> Double,
    X: Fn(Bounds, usize, Double) -> Bounds,
    M: Fn(Double, u32, Double) -> Double,

    requires
        more >= 1,
        more <= u32::MAX,
        all_have_room(before, more),
        assigns(
            geometry,
            before,
            point,
            zoom,
            average_center,
            grid_size,
            issued,
            after,
            holder,
            issued_after,
        ),
    ensures
        all_have_room(after, (more - 1) as nat),
{
    let distances: Seq<Double> = choose|distances: Seq<Double>|
        {
            &&& #[trigger] measured(geometry, before, point.position(), distances)
            &&& settles(
                geometry,
                before,
                point,
                distances,
                zoom,
                average_center,
                grid_size,
                issued,
                after,
                holder,
                issued_after,
            )
        };
    assert forall|i: int| 0 <= i < after.len() implies (#[trigger] after[i]).size + (more - 1)
        <= u32::MAX by {
        match choice(before, point.position(), distances) {
            Some(c) => {
                if i != c {
                    assert(after[i] == before[i]);
                }
            },
            None => {
                if i < before.len() {
                    assert(after[i] == before[i]);
                }
            },
        }
    }
}

} // verus!
