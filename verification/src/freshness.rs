//! Clusters keep their identities, and no two clusters share one.

use vstd::prelude::*;
use crate::bounds::Bounds;
use crate::cluster::ClusterView;
use crate::clustering::{
    all_have_room, all_wf, assigns, eligible, leads_to, measured, passes, pending, settles, step,
    Grouping,
};
use crate::config::Config;
use crate::counting::lemma_pass_counts_so_far;
use crate::double::Double;
use crate::geometry::Geometry;
use crate::identity::Identity;
use crate::marker::{Marker, UniqueMarker};
use crate::nearest::choice;

verus! {

/// Every cluster's serial number has been issued, and no two clusters have
/// the same.
pub open spec fn distinct_below(clusters: Seq<ClusterView>, issued: nat) -> bool {
    &&& forall|i: int| 0 <= i < clusters.len() ==> (#[trigger] clusters[i]).uuid.serial < issued
    &&& forall|i: int, j: int|
        0 <= i < j < clusters.len() ==> (#[trigger] clusters[i]).uuid.serial
            != (#[trigger] clusters[j]).uuid.serial
}

/// `later` holds the clusters of `earlier`, in place and under their
/// identities and none smaller than it was, and behind them clusters whose
/// serial numbers were issued from `issued` on.
pub open spec fn grown_from(earlier: Seq<ClusterView>, issued: nat, later: Seq<ClusterView>) -> bool {
    &&& earlier.len() <= later.len()
    &&& forall|i: int|
        0 <= i < earlier.len() ==> (#[trigger] later[i]).uuid == earlier[i].uuid && earlier[i].size
            <= later[i].size
    &&& forall|i: int|
        earlier.len() <= i < later.len() ==> (#[trigger] later[i]).uuid.serial >= issued
}

/// Assigning a marker keeps the clusters there are, spends at most one
/// identity, and leaves the identities distinct.
pub proof fn lemma_assigns_keeps_identities<D, X, M>(
    geometry: &Geometry<D, X, M>,
    before: Seq<ClusterView>,
    point: UniqueMarker,
    zoom: usize,
    average_center: bool,
    grid_size: Double,
    issued: nat,
    after: Seq<ClusterView>,
    holder: Identity,
    issued_after: nat,
) where
    D: Fn(Marker, Marker) -> Double,
    X: Fn(Bounds, usize, Double) -> Bounds,
    M: Fn(Double, u32, Double) -> Double,

    requires
        distinct_below(before, issued),
        all_wf(before),
        all_have_room(before, 1),
        assigns(
            geometry,
            before,
            point,
            zoom,
            average_center,
            grid_size,
            issued,
            after,
            holder,
            issued_after,
        ),
    ensures
        distinct_below(after, issued_after),
        grown_from(before, issued, after),
        issued <= issued_after <= issued + 1,
        exists|c: int| holds_it(before, after, holder, c),
{
    let distances: Seq<Double> = choose|distances: Seq<Double>|
        {
            &&& #[trigger] measured(geometry, before, point.position(), distances)
            &&& settles(
                geometry,
                before,
                point,
                distances,
                zoom,
                average_center,
                grid_size,
                issued,
                after,
                holder,
                issued_after,
            )
        };
    match choice(before, point.position(), distances) {
        Some(c) => {
            assert forall|i: int| 0 <= i < after.len() implies (#[trigger] after[i]).uuid
                == before[i].uuid && before[i].size <= after[i].size by {
                if i != c {
                    assert(after[i] == before[i]);
                }
            }
            assert(holds_it(before, after, holder, c));
        },
        None => {
            assert forall|i: int| 0 <= i < before.len() implies (#[trigger] after[i]).uuid
                == before[i].uuid && before[i].size <= after[i].size by {
                assert(after[i] == before[i]);
            }
            assert(holds_it(before, after, holder, before.len() as int));
        },
    }
}

/// Cluster `c` is the one that took the marker in: it bears the identity
/// `holder` and is either new or one larger than it was, and every other
/// cluster is as it was.
pub open spec fn holds_it(
    before: Seq<ClusterView>,
    after: Seq<ClusterView>,
    holder: Identity,
    c: int,
) -> bool {
    &&& 0 <= c < after.len()
    &&& after[c].uuid == holder
    &&& c < before.len() ==> after.len() == before.len() && after[c].size == before[c].size + 1
    &&& c >= before.len() ==> after.len() == before.len() + 1 && c == before.len()
    &&& forall|i: int| 0 <= i < before.len() && i != c ==> #[trigger] after[i] == before[i]
}

/// Whether cluster `j` of `later` was founded or took a marker in since
/// `earlier`.
pub open spec fn touched(earlier: Seq<ClusterView>, later: Seq<ClusterView>, j: int) -> bool {
    j >= earlier.len() || later[j].size > earlier[j].size
}

/// The serial numbers of the clusters of `later` that were founded or took a
/// marker in since `earlier`.
pub open spec fn touched_serials(earlier: Seq<ClusterView>, later: Seq<ClusterView>) -> Set<u64> {
    Set::new(
        |serial: u64|
            exists|j: int|
                0 <= j < later.len() && touched(earlier, later, j) && (#[trigger] later[j]).uuid.serial
                    == serial,
    )
}

/// What a pass has recorded after `k` markers: the clusters it began with are
/// all there, those it has not touched are as they were, the identities are
/// distinct, and the serial numbers recorded as changed are those of the
/// clusters it touched.
pub open spec fn follows(start: Grouping, now: Grouping) -> bool {
    &&& distinct_below(now.clusters, now.issued)
    &&& grown_from(start.clusters, start.issued, now.clusters)
    &&& start.issued <= now.issued
    &&& forall|j: int|
        0 <= j < start.clusters.len() && !touched(start.clusters, now.clusters, j)
            ==> #[trigger] now.clusters[j] == start.clusters[j]
    &&& now.changed == start.changed.union(touched_serials(start.clusters, now.clusters))
}

/// Along a pass, what is recorded as changed follows what is touched.
pub proof fn lemma_pass_tracks_so_far<D, X, M>(
    geometry: &Geometry<D, X, M>,
    trace: Seq<Grouping>,
    markers: Seq<UniqueMarker>,
    map_bounds: Bounds,
    zoom: usize,
    config: Config,
    k: int,
) where
    D: Fn(Marker, Marker) -> Double,
    X: Fn(Bounds, usize, Double) -> Bounds,
    M: Fn(Double, u32, Double) -> Double,

    requires
        passes(geometry, trace, markers, map_bounds, zoom, config),
        all_wf(trace.first().clusters),
        all_have_room(trace.first().clusters, pending(markers)),
        pending(markers) <= u32::MAX,
        distinct_below(trace.first().clusters, trace.first().issued),
        0 <= k <= markers.len(),
    ensures
        follows(trace.first(), trace[k]),
    decreases k,
{
    let start: Grouping = trace.first();
    if k == 0 {
        assert(touched_serials(start.clusters, start.clusters) =~= Set::<u64>::empty());
        assert(start.changed.union(Set::<u64>::empty()) =~= start.changed);
    } else {
        lemma_pass_tracks_so_far(geometry, trace, markers, map_bounds, zoom, config, k - 1);
        lemma_pass_counts_so_far(geometry, trace, markers, map_bounds, zoom, config, k - 1);
        let marker: UniqueMarker = markers[k - 1];
        let before: Grouping = trace[k - 1];
        let after: Grouping = trace[k];
        let rest: Seq<UniqueMarker> = markers.skip(k - 1);
        assert(rest.first() == marker);
        assert(step(geometry, before, marker, map_bounds, zoom, config, after));
        if eligible(marker, map_bounds) {
            let holder: Identity = choose|holder: Identity|
                {
                    &&& #[trigger] assigns(
                        geometry,
                        before.clusters,
                        marker.consumed(),
                        zoom,
                        config.average_center,
                        config.grid_size,
                        before.issued,
                        after.clusters,
                        holder,
                        after.issued,
                    )
                    &&& after.changed == before.changed.insert(holder.serial)
                };
            lemma_assigns_keeps_identities(
                geometry,
                before.clusters,
                marker.consumed(),
                zoom,
                config.average_center,
                config.grid_size,
                before.issued,
                after.clusters,
                holder,
                after.issued,
            );
            let c: int = choose|c: int| holds_it(before.clusters, after.clusters, holder, c);
            assert(touched(start.clusters, after.clusters, c));
            assert forall|j: int|
                0 <= j < start.clusters.len() && !touched(
                    start.clusters,
                    after.clusters,
                    j,
                ) implies #[trigger] after.clusters[j] == start.clusters[j] by {
                assert(after.clusters[j] == before.clusters[j]);
            }
            let was: Set<u64> = touched_serials(start.clusters, before.clusters);
            let is: Set<u64> = touched_serials(start.clusters, after.clusters);
            assert forall|serial: u64| is.contains(serial) <==> was.insert(
                holder.serial,
            ).contains(serial) by {
                if is.contains(serial) {
                    let j: int = choose|j: int|
                        0 <= j < after.clusters.len() && touched(
                            start.clusters,
                            after.clusters,
                            j,
                        ) && (#[trigger] after.clusters[j]).uuid.serial == serial;
                    if j != c {
                        assert(after.clusters[j] == before.clusters[j]);
                        assert(touched(start.clusters, before.clusters, j));
                    }
                }
                if was.contains(serial) {
                    let j: int = choose|j: int|
                        0 <= j < before.clusters.len() && touched(
                            start.clusters,
                            before.clusters,
                            j,
                        ) && (#[trigger] before.clusters[j]).uuid.serial == serial;
                    assert(after.clusters[j].uuid.serial == serial);
                    assert(touched(start.clusters, after.clusters, j));
                }
                if serial == holder.serial {
                    assert(after.clusters[c].uuid.serial == serial);
                }
            }
            assert(is =~= was.insert(holder.serial));
            assert(start.changed.union(was).insert(holder.serial) =~= start.changed.union(is));
        }
    }
}

/// A pass keeps the identities distinct, leaves every cluster that it does
/// not touch as it was, gives new clusters serial numbers that had not been
/// issued, and records as changed exactly the clusters that it touches,
/// whatever the settings.
pub proof fn lemma_pass_tracks<D, X, M>(
    geometry: &Geometry<D, X, M>,
    start: Grouping,
    markers: Seq<UniqueMarker>,
    map_bounds: Bounds,
    zoom: usize,
    config: Config,
    end: Grouping,
) where
    D: Fn(Marker, Marker) -> Double,
    X: Fn(Bounds, usize, Double) -> Bounds,
    M: Fn(Double, u32, Double) -> Double,

    requires
        leads_to(geometry, start, markers, map_bounds, zoom, config, end),
        all_wf(start.clusters),
        all_have_room(start.clusters, pending(markers)),
        pending(markers) <= u32::MAX,
        distinct_below(start.clusters, start.issued),
    ensures
        follows(start, end),
{
    let trace: Seq<Grouping> = choose|trace: Seq<Grouping>|
        {
            &&& #[trigger] passes(geometry, trace, markers, map_bounds, zoom, config)
            &&& trace.first() == start
            &&& trace.last() == end
        };
    lemma_pass_tracks_so_far(
        geometry,
        trace,
        markers,
        map_bounds,
        zoom,
        config,
        markers.len() as int,
    );
}

/// Where the identities are distinct, a cluster's serial number is among
/// those of the touched clusters just when the cluster itself was touched.
pub proof fn lemma_touched_serial(earlier: Seq<ClusterView>, later: Seq<ClusterView>, issued: nat, j: int)
    requires
        distinct_below(later, issued),
        0 <= j < later.len(),
    ensures
        touched_serials(earlier, later).contains(later[j].uuid.serial) <==> touched(
            earlier,
            later,
            j,
        ),
{
    if touched_serials(earlier, later).contains(later[j].uuid.serial) {
        let i: int = choose|i: int|
            0 <= i < later.len() && touched(earlier, later, i) && (#[trigger] later[i]).uuid.serial
                == later[j].uuid.serial;
        if i < j {
            assert(later[i].uuid.serial != later[j].uuid.serial);
        }
        if j < i {
            assert(later[j].uuid.serial != later[i].uuid.serial);
        }
    }
}

} // verus!
