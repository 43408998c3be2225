//! The member lists of the clusters hold the markers that were taken up, each
//! once.

use vstd::multiset::Multiset;
use vstd::prelude::*;
use vstd::seq_lib::to_multiset_build;
use crate::bounds::Bounds;
use crate::cluster::ClusterView;
use crate::clustering::{
    assigns, eligible, leads_to, measured, passes, settles, step, swept, Grouping,
};
use crate::config::Config;
use crate::double::Double;
use crate::geometry::Geometry;
use crate::identity::Identity;
use crate::marker::{Marker, UniqueMarker};
use crate::nearest::choice;
use crate::store::distinct_markers_below;

verus! {

/// The members of all the clusters together, each as often as it is listed.
pub open spec fn all_members(clusters: Seq<ClusterView>) -> Multiset<UniqueMarker>
    decreases clusters.len(),
{
    if clusters.len() == 0 {
        Multiset::empty()
    } else {
        all_members(clusters.drop_last()).add(clusters.last().markers.to_multiset())
    }
}

/// The markers that a pass over `map_bounds` takes up, flagged as a pass
/// flags them, each as often as it is stored.
pub open spec fn taken_up(markers: Seq<UniqueMarker>, map_bounds: Bounds) -> Multiset<UniqueMarker>
    decreases markers.len(),
{
    if markers.len() == 0 {
        Multiset::empty()
    } else if eligible(markers.last(), map_bounds) {
        taken_up(markers.drop_last(), map_bounds).insert(markers.last().consumed())
    } else {
        taken_up(markers.drop_last(), map_bounds)
    }
}

/// The markers that are flagged as being in a cluster, each as often as it
/// is stored.
pub open spec fn flagged(markers: Seq<UniqueMarker>) -> Multiset<UniqueMarker>
    decreases markers.len(),
{
    if markers.len() == 0 {
        Multiset::empty()
    } else if markers.last().is_added {
        flagged(markers.drop_last()).insert(markers.last())
    } else {
        flagged(markers.drop_last())
    }
}

/// A new cluster adds its members.
pub proof fn lemma_members_push(clusters: Seq<ClusterView>, cluster: ClusterView)
    ensures
        all_members(clusters.push(cluster)) == all_members(clusters).add(
            cluster.markers.to_multiset(),
        ),
{
    assert(clusters.push(cluster).drop_last() =~= clusters);
}

/// A cluster that is replaced takes its members out and puts the new ones in.
pub proof fn lemma_members_update(clusters: Seq<ClusterView>, i: int, cluster: ClusterView)
    requires
        0 <= i < clusters.len(),
    ensures
        all_members(clusters.update(i, cluster)).add(clusters[i].markers.to_multiset())
            == all_members(clusters).add(cluster.markers.to_multiset()),
    decreases clusters.len(),
{
    let updated: Seq<ClusterView> = clusters.update(i, cluster);
    let rest: Multiset<UniqueMarker> = all_members(clusters.drop_last());
    let old_list: Multiset<UniqueMarker> = clusters[i].markers.to_multiset();
    let new_list: Multiset<UniqueMarker> = cluster.markers.to_multiset();
    if i == clusters.len() - 1 {
        assert(updated.drop_last() =~= clusters.drop_last());
        assert(updated.last() == cluster);
        assert(rest.add(new_list).add(old_list) =~= rest.add(old_list).add(new_list));
    } else {
        assert(updated.drop_last() =~= clusters.drop_last().update(i, cluster));
        assert(updated.last() == clusters.last());
        lemma_members_update(clusters.drop_last(), i, cluster);
        let last_list: Multiset<UniqueMarker> = clusters.last().markers.to_multiset();
        let inner: Multiset<UniqueMarker> = all_members(clusters.drop_last().update(i, cluster));
        assert(inner.add(last_list).add(old_list) =~= inner.add(old_list).add(last_list));
        assert(rest.add(new_list).add(last_list) =~= rest.add(last_list).add(new_list));
    }
}

/// Assigning a marker puts it into one member list, once, and moves no other
/// member.
pub proof fn lemma_assigns_adds_member<D, X, M>(
    geometry: &Geometry<D, X, M>,
    before: Seq<ClusterView>,
    point: UniqueMarker,
    zoom: usize,
    average_center: bool,
    grid_size: Double,
    issued: nat,
    after: Seq<ClusterView>,
    holder: Identity,
    issued_after: nat,
) where
    D: Fn(Marker, Marker) -> Double,
    X: Fn(Bounds, usize, Double) -> Bounds,
    M: Fn(Double, u32, Double) -> Double,

    requires
        assigns(
            geometry,
            before,
            point,
            zoom,
            average_center,
            grid_size,
            issued,
            after,
            holder,
            issued_after,
        ),
    ensures
        all_members(after) == all_members(before).insert(point),
{
    let distances: Seq<Double> = choose|distances: Seq<Double>|
        {
            &&& #[trigger] measured(geometry, before, point.position(), distances)
            &&& settles(
                geometry,
                before,
                point,
                distances,
                zoom,
                average_center,
                grid_size,
                issued,
                after,
                holder,
                issued_after,
            )
        };
    match choice(before, point.position(), distances) {
        Some(c) => {
            lemma_members_update(before, c, after[c]);
            assert(after[c].markers == before[c].markers.push(point));
            to_multiset_build(before[c].markers, point);
            let old_list: Multiset<UniqueMarker> = before[c].markers.to_multiset();
            let with_old: Multiset<UniqueMarker> = all_members(after).add(old_list);
            let with_new: Multiset<UniqueMarker> = all_members(before).add(old_list.insert(point));
            assert(with_old == with_new);
            assert forall|marker: UniqueMarker|
                all_members(after).count(marker) == all_members(before).insert(point).count(
                    marker,
                ) by {
                assert(with_old.count(marker) == with_new.count(marker));
            }
            assert(all_members(after) =~= all_members(before).insert(point));
        },
        None => {
            lemma_members_push(before, after.last());
            assert(after.last().markers =~= Seq::<UniqueMarker>::empty().push(point));
            to_multiset_build(Seq::<UniqueMarker>::empty(), point);
            Seq::<UniqueMarker>::empty().to_multiset_ensures();
            assert(Seq::<UniqueMarker>::empty().to_multiset() =~= Multiset::<UniqueMarker>::empty());
            assert(all_members(after) =~= all_members(before).insert(point));
        },
    }
}

/// Along a pass the member lists take in the markers taken up so far, and
/// nothing else.
pub proof fn lemma_pass_fills_so_far<D, X, M>(
    geometry: &Geometry<D, X, M>,
    trace: Seq<Grouping>,
    markers: Seq<UniqueMarker>,
    map_bounds: Bounds,
    zoom: usize,
    config: Config,
    k: int,
) where
    D: Fn(Marker, Marker) -> Double,
    X: Fn(Bounds, usize, Double) -> Bounds,
    M: Fn(Double, u32, Double) -> Double,

    requires
        passes(geometry, trace, markers, map_bounds, zoom, config),
        0 <= k <= markers.len(),
    ensures
        all_members(trace[k].clusters) == all_members(trace.first().clusters).add(
            taken_up(markers.take(k), map_bounds),
        ),
    decreases k,
{
    if k == 0 {
        assert(markers.take(0) =~= Seq::<UniqueMarker>::empty());
        assert(all_members(trace.first().clusters).add(Multiset::<UniqueMarker>::empty())
            =~= all_members(trace.first().clusters));
    } else {
        lemma_pass_fills_so_far(geometry, trace, markers, map_bounds, zoom, config, k - 1);
        let marker: UniqueMarker = markers[k - 1];
        assert(markers.take(k).drop_last() =~= markers.take(k - 1));
        assert(markers.take(k).last() == marker);
        assert(step(geometry, trace[k - 1], marker, map_bounds, zoom, config, trace[k]));
        if eligible(marker, map_bounds) {
            let holder: Identity = choose|holder: Identity| #[trigger]
                assigns(
                    geometry,
                    trace[k - 1].clusters,
                    marker.consumed(),
                    zoom,
                    config.average_center,
                    config.grid_size,
                    trace[k - 1].issued,
                    trace[k].clusters,
                    holder,
                    trace[k].issued,
                );
            lemma_assigns_adds_member(
                geometry,
                trace[k - 1].clusters,
                marker.consumed(),
                zoom,
                config.average_center,
                config.grid_size,
                trace[k - 1].issued,
                trace[k].clusters,
                holder,
                trace[k].issued,
            );
            assert(all_members(trace[k].clusters) =~= all_members(trace.first().clusters).add(
                taken_up(markers.take(k), map_bounds),
            ));
        }
    }
}

/// A pass puts every marker that it takes up into a member list, once, in
/// the form in which it is flagged, and puts nothing else into any: a marker
/// that is not strictly inside the bounds, or was in a cluster already,
/// enters no member list.
pub proof fn lemma_pass_fills<D, X, M>(
    geometry: &Geometry<D, X, M>,
    start: Grouping,
    markers: Seq<UniqueMarker>,
    map_bounds: Bounds,
    zoom: usize,
    config: Config,
    end: Grouping,
) where
    D: Fn(Marker, Marker) -> Double,
    X: Fn(Bounds, usize, Double) -> Bounds,
    M: Fn(Double, u32, Double) -> Double,

    requires
        leads_to(geometry, start, markers, map_bounds, zoom, config, end),
    ensures
        all_members(end.clusters) == all_members(start.clusters).add(taken_up(markers, map_bounds)),
{
    let trace: Seq<Grouping> = choose|trace: Seq<Grouping>|
        {
            &&& #[trigger] passes(geometry, trace, markers, map_bounds, zoom, config)
            &&& trace.first() == start
            &&& trace.last() == end
        };
    lemma_pass_fills_so_far(
        geometry,
        trace,
        markers,
        map_bounds,
        zoom,
        config,
        markers.len() as int,
    );
    assert(markers.take(markers.len() as int) =~= markers);
}

/// The markers flagged after a pass are those flagged before it and those it
/// took up.
pub proof fn lemma_swept_flags(markers: Seq<UniqueMarker>, map_bounds: Bounds)
    ensures
        flagged(swept(markers, map_bounds)) == flagged(markers).add(taken_up(markers, map_bounds)),
    decreases markers.len(),
{
    if markers.len() > 0 {
        lemma_swept_flags(markers.drop_last(), map_bounds);
        assert(swept(markers, map_bounds).drop_last() =~= swept(markers.drop_last(), map_bounds));
    }
    assert(flagged(swept(markers, map_bounds)) =~= flagged(markers).add(
        taken_up(markers, map_bounds),
    ));
}

/// Markers of which none is flagged: the flagged are none.
pub proof fn lemma_none_flagged(markers: Seq<UniqueMarker>)
    requires
        forall|i: int| 0 <= i < markers.len() ==> !(#[trigger] markers[i]).is_added,
    ensures
        flagged(markers) == Multiset::<UniqueMarker>::empty(),
    decreases markers.len(),
{
    if markers.len() > 0 {
        lemma_none_flagged(markers.drop_last());
    }
}

/// Free markers behind the first `held` markers add nothing to the flagged.
pub proof fn lemma_flagged_appended(markers: Seq<UniqueMarker>, held: int)
    requires
        0 <= held <= markers.len(),
        forall|i: int| held <= i < markers.len() ==> !(#[trigger] markers[i]).is_added,
    ensures
        flagged(markers) == flagged(markers.take(held)),
    decreases markers.len() - held,
{
    if held == markers.len() {
        assert(markers.take(held) =~= markers);
    } else {
        lemma_flagged_appended(markers.drop_last(), held);
        assert(markers.drop_last().take(held) =~= markers.take(held));
    }
}

/// A marker that counts among the flagged is stored and flagged.
pub proof fn lemma_flagged_is_stored(markers: Seq<UniqueMarker>, marker: UniqueMarker)
    requires
        flagged(markers).count(marker) > 0,
    ensures
        exists|i: int| 0 <= i < markers.len() && #[trigger] markers[i] == marker && marker.is_added,
    decreases markers.len(),
{
    if markers.len() > 0 {
        let last: int = markers.len() - 1;
        if markers.last().is_added && markers.last() == marker {
            assert(markers[last] == marker);
        } else {
            lemma_flagged_is_stored(markers.drop_last(), marker);
            let i: int = choose|i: int|
                0 <= i < markers.drop_last().len() && #[trigger] markers.drop_last()[i] == marker
                    && marker.is_added;
            assert(markers[i] == marker);
        }
    }
}

/// Where no two stored markers share a serial number, a stored marker counts
/// once among the flagged if it is flagged, and not at all if it is free.
pub proof fn lemma_flagged_once(markers: Seq<UniqueMarker>, issued: nat, k: int)
    requires
        distinct_markers_below(markers, issued),
        0 <= k < markers.len(),
    ensures
        flagged(markers).count(markers[k]) == if markers[k].is_added {
            1nat
        } else {
            0nat
        },
    decreases markers.len(),
{
    let last: int = markers.len() - 1;
    let rest: Seq<UniqueMarker> = markers.drop_last();
    if k == last {
        if flagged(rest).count(markers[k]) > 0 {
            lemma_flagged_is_stored(rest, markers[k]);
            let i: int = choose|i: int|
                0 <= i < rest.len() && #[trigger] rest[i] == markers[k] && markers[k].is_added;
            assert(markers[i].uuid.serial != markers[k].uuid.serial);
        }
    } else {
        assert(rest[k] == markers[k]);
        assert(distinct_markers_below(rest, issued)) by {
            assert forall|i: int| 0 <= i < rest.len() implies (#[trigger] rest[i]).uuid.serial
                < issued by {
                assert(rest[i] == markers[i]);
            }
            assert forall|i: int, j: int| 0 <= i < j < rest.len() implies (
            #[trigger] rest[i]).uuid.serial != (#[trigger] rest[j]).uuid.serial by {
                assert(rest[i] == markers[i]);
                assert(rest[j] == markers[j]);
            }
        }
        lemma_flagged_once(rest, issued, k);
        assert(markers[k].uuid.serial != markers[last].uuid.serial);
    }
}

/// What a pass takes up is nothing but eligible markers, flagged.
pub proof fn lemma_taken_up_is_eligible(
    markers: Seq<UniqueMarker>,
    map_bounds: Bounds,
    marker: UniqueMarker,
)
    requires
        taken_up(markers, map_bounds).count(marker) > 0,
    ensures
        exists|i: int|
            0 <= i < markers.len() && eligible(#[trigger] markers[i], map_bounds)
                && markers[i].consumed() == marker,
    decreases markers.len(),
{
    if markers.len() > 0 {
        let last: int = markers.len() - 1;
        if eligible(markers.last(), map_bounds) && markers.last().consumed() == marker {
            assert(eligible(markers[last], map_bounds));
        } else {
            lemma_taken_up_is_eligible(markers.drop_last(), map_bounds, marker);
            let i: int = choose|i: int|
                0 <= i < markers.drop_last().len() && eligible(
                    #[trigger] markers.drop_last()[i],
                    map_bounds,
                ) && markers.drop_last()[i].consumed() == marker;
            assert(markers[i] == markers.drop_last()[i]);
        }
    }
}

} // verus!
