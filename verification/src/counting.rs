//! Counting the markers that a pass gives to clusters.

use vstd::prelude::*;
use crate::bounds::Bounds;
use crate::cluster::ClusterView;
use crate::clustering::{
    all_have_room, all_wf, assigns, eligible, leads_to, lemma_assigns_keeps_room, measured, passes,
    pending, settles, step, swept, Grouping,
};
use crate::config::Config;
use crate::double::Double;
use crate::geometry::Geometry;
use crate::identity::Identity;
use crate::marker::{Marker, UniqueMarker};
use crate::nearest::choice;

verus! {

/// The sum of the sizes of the clusters.
pub open spec fn total_size(clusters: Seq<ClusterView>) -> nat
    decreases clusters.len(),
{
    if clusters.len() == 0 {
        0
    } else {
        total_size(clusters.drop_last()) + clusters.last().size as nat
    }
}

/// How many of the markers a pass over `map_bounds` takes up.
pub open spec fn count_eligible(markers: Seq<UniqueMarker>, map_bounds: Bounds) -> nat
    decreases markers.len(),
{
    if markers.len() == 0 {
        0
    } else if eligible(markers.last(), map_bounds) {
        count_eligible(markers.drop_last(), map_bounds) + 1
    } else {
        count_eligible(markers.drop_last(), map_bounds)
    }
}

/// How many of the markers lie strictly inside the bounds.
pub open spec fn count_inside(markers: Seq<UniqueMarker>, map_bounds: Bounds) -> nat
    decreases markers.len(),
{
    if markers.len() == 0 {
        0
    } else if map_bounds.holds(markers.last().position()) {
        count_inside(markers.drop_last(), map_bounds) + 1
    } else {
        count_inside(markers.drop_last(), map_bounds)
    }
}

/// How many of the markers are in a cluster.
pub open spec fn count_consumed(markers: Seq<UniqueMarker>) -> nat
    decreases markers.len(),
{
    if markers.len() == 0 {
        0
    } else if markers.last().is_added {
        count_consumed(markers.drop_last()) + 1
    } else {
        count_consumed(markers.drop_last())
    }
}

/// A new cluster adds its size to the sum.
pub proof fn lemma_total_size_push(clusters: Seq<ClusterView>, cluster: ClusterView)
    ensures
        total_size(clusters.push(cluster)) == total_size(clusters) + cluster.size,
{
    assert(clusters.push(cluster).drop_last() =~= clusters);
}

/// A cluster that is replaced takes its size out of the sum and puts the new
/// one in.
pub proof fn lemma_total_size_update(clusters: Seq<ClusterView>, i: int, cluster: ClusterView)
    requires
        0 <= i < clusters.len(),
    ensures
        total_size(clusters.update(i, cluster)) + clusters[i].size == total_size(clusters)
            + cluster.size,
    decreases clusters.len(),
{
    let updated: Seq<ClusterView> = clusters.update(i, cluster);
    if i == clusters.len() - 1 {
        assert(updated.drop_last() =~= clusters.drop_last());
    } else {
        assert(updated.drop_last() =~= clusters.drop_last().update(i, cluster));
        lemma_total_size_update(clusters.drop_last(), i, cluster);
    }
}

/// No cluster is larger than all the clusters together.
pub proof fn lemma_size_within_total(clusters: Seq<ClusterView>, i: int)
    requires
        0 <= i < clusters.len(),
    ensures
        clusters[i].size <= total_size(clusters),
    decreases clusters.len(),
{
    if i < clusters.len() - 1 {
        lemma_size_within_total(clusters.drop_last(), i);
    }
}

/// Each marker is either in a cluster or pending.
pub proof fn lemma_consumed_and_pending(markers: Seq<UniqueMarker>)
    ensures
        count_consumed(markers) + pending(markers) == markers.len(),
    decreases markers.len(),
{
    if markers.len() > 0 {
        lemma_consumed_and_pending(markers.drop_last());
        lemma_pending_last(markers);
    }
}

/// `pending` can count from the back as well.
pub proof fn lemma_pending_last(markers: Seq<UniqueMarker>)
    requires
        markers.len() > 0,
    ensures
        pending(markers) == pending(markers.drop_last()) + if markers.last().is_added {
            0nat
        } else {
            1nat
        },
    decreases markers.len(),
{
    if markers.len() == 1 {
        assert(markers.drop_first() =~= markers.drop_last());
    } else {
        lemma_pending_last(markers.drop_first());
        assert(markers.drop_first().drop_last() =~= markers.drop_last().drop_first());
    }
}

/// Assigning a marker adds exactly one to the sum of the sizes, and leaves
/// every size the count of its cluster's members.
pub proof fn lemma_assigns_adds_one<D, X, M>(
    geometry: &Geometry<D, X, M>,
    before: Seq<ClusterView>,
    point: UniqueMarker,
    zoom: usize,
    average_center: bool,
    grid_size: Double,
    issued: nat,
    after: Seq<ClusterView>,
    holder: Identity,
    issued_after: nat,
) where
    D: Fn(Marker, Marker) -> Double,
    X: Fn(Bounds, usize, Double) -> Bounds,
    M: Fn(Double, u32, Double) -> Double,

    requires
        all_wf(before),
        all_have_room(before, 1),
        assigns(
            geometry,
            before,
            point,
            zoom,
            average_center,
            grid_size,
            issued,
            after,
            holder,
            issued_after,
        ),
    ensures
        all_wf(after),
        total_size(after) == total_size(before) + 1,
{
    let distances: Seq<Double> = choose|distances: Seq<Double>|
        {
            &&& #[trigger] measured(geometry, before, point.position(), distances)
            &&& settles(
                geometry,
                before,
                point,
                distances,
                zoom,
                average_center,
                grid_size,
                issued,
                after,
                holder,
                issued_after,
            )
        };
    match choice(before, point.position(), distances) {
        Some(c) => {
            lemma_total_size_update(before, c, after[c]);
            assert forall|i: int| 0 <= i < after.len() implies (#[trigger] after[i]).wf() by {
                if i != c {
                    assert(after[i] == before[i]);
                }
            }
        },
        None => {
            lemma_total_size_push(before, after.last());
            assert forall|i: int| 0 <= i < after.len() implies (#[trigger] after[i]).wf() by {
                if i < before.len() {
                    assert(after[i] == before[i]);
                }
            }
        },
    }
}

/// Along a pass the sizes stay the counts of the members, the clusters keep
/// room for the markers still to come, and the sizes sum to what they summed
/// to at the start plus the number of markers taken up so far.
pub proof fn lemma_pass_counts_so_far<D, X, M>(
    geometry: &Geometry<D, X, M>,
    trace: Seq<Grouping>,
    markers: Seq<UniqueMarker>,
    map_bounds: Bounds,
    zoom: usize,
    config: Config,
    k: int,
) where
    D: Fn(Marker, Marker) -> Double,
    X: Fn(Bounds, usize, Double) -> Bounds,
    M: Fn(Double, u32, Double) -> Double,

    requires
        passes(geometry, trace, markers, map_bounds, zoom, config),
        all_wf(trace.first().clusters),
        all_have_room(trace.first().clusters, pending(markers)),
        pending(markers) <= u32::MAX,
        0 <= k <= markers.len(),
    ensures
        all_wf(trace[k].clusters),
        all_have_room(trace[k].clusters, pending(markers.skip(k))),
        pending(markers.skip(k)) <= u32::MAX,
        total_size(trace[k].clusters) == total_size(trace.first().clusters) + count_eligible(
            markers.take(k),
            map_bounds,
        ),
    decreases k,
{
    if k == 0 {
        assert(markers.skip(0) =~= markers);
        assert(markers.take(0) =~= Seq::<UniqueMarker>::empty());
    } else {
        lemma_pass_counts_so_far(geometry, trace, markers, map_bounds, zoom, config, k - 1);
        let marker: UniqueMarker = markers[k - 1];
        let rest: Seq<UniqueMarker> = markers.skip(k - 1);
        assert(rest.first() == marker);
        assert(rest.drop_first() =~= markers.skip(k));
        assert(markers.take(k).drop_last() =~= markers.take(k - 1));
        assert(markers.take(k).last() == marker);
        assert(step(geometry, trace[k - 1], marker, map_bounds, zoom, config, trace[k]));
        if eligible(marker, map_bounds) {
            let holder: Identity = choose|holder: Identity| #[trigger]
                assigns(
                    geometry,
                    trace[k - 1].clusters,
                    marker.consumed(),
                    zoom,
                    config.average_center,
                    config.grid_size,
                    trace[k - 1].issued,
                    trace[k].clusters,
                    holder,
                    trace[k].issued,
                );
            lemma_assigns_adds_one(
                geometry,
                trace[k - 1].clusters,
                marker.consumed(),
                zoom,
                config.average_center,
                config.grid_size,
                trace[k - 1].issued,
                trace[k].clusters,
                holder,
                trace[k].issued,
            );
            lemma_assigns_keeps_room(
                geometry,
                trace[k - 1].clusters,
                marker.consumed(),
                zoom,
                config.average_center,
                config.grid_size,
                trace[k - 1].issued,
                trace[k].clusters,
                holder,
                trace[k].issued,
                pending(rest),
            );
        }
    }
}

/// A pass adds to the clusters exactly the markers that it takes up: the
/// sizes of the clusters sum, after the pass, to what they summed to before
/// plus the number of markers that were in no cluster and lie strictly
/// inside the bounds.
pub proof fn lemma_pass_counts<D, X, M>(
    geometry: &Geometry<D, X, M>,
    start: Grouping,
    markers: Seq<UniqueMarker>,
    map_bounds: Bounds,
    zoom: usize,
    config: Config,
    end: Grouping,
) where
    D: Fn(Marker, Marker) -> Double,
    X: Fn(Bounds, usize, Double) -> Bounds,
    M: Fn(Double, u32, Double) -> Double,

    requires
        leads_to(geometry, start, markers, map_bounds, zoom, config, end),
        all_wf(start.clusters),
        all_have_room(start.clusters, pending(markers)),
        pending(markers) <= u32::MAX,
    ensures
        all_wf(end.clusters),
        total_size(end.clusters) == total_size(start.clusters) + count_eligible(markers, map_bounds),
{
    let trace: Seq<Grouping> = choose|trace: Seq<Grouping>|
        {
            &&& #[trigger] passes(geometry, trace, markers, map_bounds, zoom, config)
            &&& trace.first() == start
            &&& trace.last() == end
        };
    lemma_pass_counts_so_far(
        geometry,
        trace,
        markers,
        map_bounds,
        zoom,
        config,
        markers.len() as int,
    );
    assert(markers.take(markers.len() as int) =~= markers);
}

/// Where no marker is in a cluster yet, a pass takes up every marker that
/// lies strictly inside the bounds.
pub proof fn lemma_all_pending_eligible(markers: Seq<UniqueMarker>, map_bounds: Bounds)
    requires
        forall|i: int| 0 <= i < markers.len() ==> !(#[trigger] markers[i]).is_added,
    ensures
        count_eligible(markers, map_bounds) == count_inside(markers, map_bounds),
    decreases markers.len(),
{
    if markers.len() > 0 {
        lemma_all_pending_eligible(markers.drop_last(), map_bounds);
    }
}

/// One full pass over markers of which none is in a cluster, starting with no
/// clusters, ends with clusters whose sizes sum to the number of markers that
/// lie strictly inside the bounds. Markers outside the bounds are not counted.
pub proof fn lemma_first_pass_counts<D, X, M>(
    geometry: &Geometry<D, X, M>,
    start: Grouping,
    markers: Seq<UniqueMarker>,
    map_bounds: Bounds,
    zoom: usize,
    config: Config,
    end: Grouping,
) where
    D: Fn(Marker, Marker) -> Double,
    X: Fn(Bounds, usize, Double) -> Bounds,
    M: Fn(Double, u32, Double) -> Double,

    requires
        leads_to(geometry, start, markers, map_bounds, zoom, config, end),
        start.clusters.len() == 0,
        forall|i: int| 0 <= i < markers.len() ==> !(#[trigger] markers[i]).is_added,
        markers.len() <= u32::MAX,
    ensures
        total_size(end.clusters) == count_inside(markers, map_bounds),
{
    lemma_consumed_and_pending(markers);
    lemma_pass_counts(geometry, start, markers, map_bounds, zoom, config, end);
    lemma_all_pending_eligible(markers, map_bounds);
}

/// The markers that a pass flags are those it takes up.
pub proof fn lemma_swept_consumes(markers: Seq<UniqueMarker>, map_bounds: Bounds)
    ensures
        count_consumed(swept(markers, map_bounds)) == count_consumed(markers) + count_eligible(
            markers,
            map_bounds,
        ),
    decreases markers.len(),
{
    if markers.len() > 0 {
        lemma_swept_consumes(markers.drop_last(), map_bounds);
        assert(swept(markers, map_bounds).drop_last() =~= swept(markers.drop_last(), map_bounds));
    }
}

/// Markers of which none is flagged count as none consumed.
pub proof fn lemma_none_consumed(markers: Seq<UniqueMarker>)
    requires
        forall|i: int| 0 <= i < markers.len() ==> !(#[trigger] markers[i]).is_added,
    ensures
        count_consumed(markers) == 0,
    decreases markers.len(),
{
    if markers.len() > 0 {
        lemma_none_consumed(markers.drop_last());
    }
}

/// Free markers behind the first `held` markers add nothing to the count of
/// the consumed.
pub proof fn lemma_appended_free(markers: Seq<UniqueMarker>, held: int)
    requires
        0 <= held <= markers.len(),
        forall|i: int| held <= i < markers.len() ==> !(#[trigger] markers[i]).is_added,
    ensures
        count_consumed(markers) == count_consumed(markers.take(held)),
    decreases markers.len() - held,
{
    if held == markers.len() {
        assert(markers.take(held) =~= markers);
    } else {
        lemma_appended_free(markers.drop_last(), held);
        assert(markers.drop_last().take(held) =~= markers.take(held));
    }
}

/// Clusters whose sizes sum to the number of consumed markers have room for
/// every pending marker, as long as the markers number no more than
/// `u32::MAX`.
pub proof fn lemma_room_for_pending(clusters: Seq<ClusterView>, markers: Seq<UniqueMarker>)
    requires
        total_size(clusters) == count_consumed(markers),
        markers.len() <= u32::MAX,
    ensures
        all_have_room(clusters, pending(markers)),
        pending(markers) <= u32::MAX,
{
    lemma_consumed_and_pending(markers);
    assert forall|k: int| 0 <= k < clusters.len() implies (#[trigger] clusters[k]).size + pending(
        markers,
    ) <= u32::MAX by {
        lemma_size_within_total(clusters, k);
    }
}

/// Along a pass, the clusters recorded as changed are at most as many as the
/// markers taken up so far.
pub proof fn lemma_pass_records_few_so_far<D, X, M>(
    geometry: &Geometry<D, X, M>,
    trace: Seq<Grouping>,
    markers: Seq<UniqueMarker>,
    map_bounds: Bounds,
    zoom: usize,
    config: Config,
    k: int,
) where
    D: Fn(Marker, Marker) -> Double,
    X: Fn(Bounds, usize, Double) -> Bounds,
    M: Fn(Double, u32, Double) -> Double,

    requires
        passes(geometry, trace, markers, map_bounds, zoom, config),
        trace.first().changed.finite(),
        0 <= k <= markers.len(),
    ensures
        trace[k].changed.finite(),
        trace[k].changed.len() <= trace.first().changed.len() + count_eligible(
            markers.take(k),
            map_bounds,
        ),
    decreases k,
{
    if k == 0 {
        assert(markers.take(0) =~= Seq::<UniqueMarker>::empty());
    } else {
        lemma_pass_records_few_so_far(geometry, trace, markers, map_bounds, zoom, config, k - 1);
        let marker: UniqueMarker = markers[k - 1];
        assert(markers.take(k).drop_last() =~= markers.take(k - 1));
        assert(markers.take(k).last() == marker);
        assert(step(geometry, trace[k - 1], marker, map_bounds, zoom, config, trace[k]));
    }
}

/// A pass records as changed at most as many clusters as it takes markers up.
pub proof fn lemma_pass_records_few<D, X, M>(
    geometry: &Geometry<D, X, M>,
    start: Grouping,
    markers: Seq<UniqueMarker>,
    map_bounds: Bounds,
    zoom: usize,
    config: Config,
    end: Grouping,
) where
    D: Fn(Marker, Marker) -> Double,
    X: Fn(Bounds, usize, Double) -> Bounds,
    M: Fn(Double, u32, Double) -> Double,

    requires
        leads_to(geometry, start, markers, map_bounds, zoom, config, end),
        start.changed == Set::<u64>::empty(),
    ensures
        end.changed.finite(),
        end.changed.len() <= count_eligible(markers, map_bounds),
{
    let trace: Seq<Grouping> = choose|trace: Seq<Grouping>|
        {
            &&& #[trigger] passes(geometry, trace, markers, map_bounds, zoom, config)
            &&& trace.first() == start
            &&& trace.last() == end
        };
    lemma_pass_records_few_so_far(
        geometry,
        trace,
        markers,
        map_bounds,
        zoom,
        config,
        markers.len() as int,
    );
    assert(markers.take(markers.len() as int) =~= markers);
}

} // verus!
