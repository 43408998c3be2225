//! What holds of every clustering call of an engine.

use vstd::prelude::*;
use crate::bounds::Bounds;
use crate::cluster::ClusterView;
use crate::clustering::{eligible, passes, step, Grouping};
use crate::config::Config;
use crate::counting::{
    count_consumed, count_eligible, count_inside, lemma_first_pass_counts, lemma_none_consumed,
    lemma_pass_counts, lemma_pass_records_few, lemma_room_for_pending, lemma_swept_consumes,
    total_size,
};
use crate::double::Double;
use crate::engine::{answers, handed_back, EngineView};
use crate::freshness::{
    distinct_below, follows, lemma_pass_tracks, lemma_touched_serial, touched, touched_serials,
};
use crate::geometry::Geometry;
use crate::marker::{Marker, UniqueMarker};
use crate::members::{
    all_members, lemma_flagged_once, lemma_none_flagged, lemma_pass_fills, lemma_swept_flags,
};
use crate::store::released;

verus! {

/// Where nothing is wanted, nothing is kept.
pub proof fn lemma_filter_none(all: Seq<ClusterView>, wanted: spec_fn(ClusterView) -> bool)
    requires
        forall|j: int| 0 <= j < all.len() ==> !wanted(#[trigger] all[j]),
    ensures
        all.filter(wanted) == Seq::<ClusterView>::empty(),
    decreases all.len(),
{
    reveal(Seq::filter);
    if all.len() > 0 {
        lemma_filter_none(all.drop_last(), wanted);
    }
}

/// Where one cluster alone is wanted, it alone is kept.
pub proof fn lemma_filter_one(all: Seq<ClusterView>, wanted: spec_fn(ClusterView) -> bool, c: int)
    requires
        0 <= c < all.len(),
        forall|j: int| 0 <= j < all.len() ==> (wanted(#[trigger] all[j]) <==> j == c),
    ensures
        all.filter(wanted) == seq![all[c]],
    decreases all.len(),
{
    reveal(Seq::filter);
    if c == all.len() - 1 {
        lemma_filter_none(all.drop_last(), wanted);
        assert(Seq::<ClusterView>::empty().push(all[c]) =~= seq![all[c]]);
    } else {
        lemma_filter_one(all.drop_last(), wanted, c);
    }
}

/// A pass that takes no marker up changes nothing.
pub proof fn lemma_idle_pass_so_far<D, X, M>(
    geometry: &Geometry<D, X, M>,
    trace: Seq<Grouping>,
    markers: Seq<UniqueMarker>,
    map_bounds: Bounds,
    zoom: usize,
    config: Config,
    k: int,
) where
    D: Fn(Marker, Marker) -> Double,
    X: Fn(Bounds, usize, Double) -> Bounds,
    M: Fn(Double, u32, Double) -> Double,

    requires
        passes(geometry, trace, markers, map_bounds, zoom, config),
        forall|i: int| 0 <= i < markers.len() ==> !eligible(#[trigger] markers[i], map_bounds),
        0 <= k <= markers.len(),
    ensures
        trace[k] == trace.first(),
    decreases k,
{
    if k > 0 {
        lemma_idle_pass_so_far(geometry, trace, markers, map_bounds, zoom, config, k - 1);
        assert(step(geometry, trace[k - 1], markers[k - 1], map_bounds, zoom, config, trace[k]));
    }
}

/// A call that finds no marker to take up leaves the clusters as they were
/// at the start of the call, and hands back nothing where only the changed
/// clusters are asked for.
pub proof fn lemma_idle_call_returns_nothing<D, X, M>(
    geometry: &Geometry<D, X, M>,
    before: EngineView,
    bounds: Bounds,
    zoom: usize,
    map_bounds: Bounds,
    changed: Set<u64>,
    after: EngineView,
    returned: Seq<ClusterView>,
) where
    D: Fn(Marker, Marker) -> Double,
    X: Fn(Bounds, usize, Double) -> Bounds,
    M: Fn(Double, u32, Double) -> Double,

    requires
        answers(geometry, before, bounds, zoom, map_bounds, changed, after, returned),
        forall|i: int|
            0 <= i < before.opened(zoom).markers.len() ==> !eligible(
                #[trigger] before.opened(zoom).markers[i],
                map_bounds,
            ),
    ensures
        after.clusters == before.opened(zoom).clusters,
        after.markers == before.opened(zoom).markers,
        before.config.only_return_modified_clusters ==> returned.len() == 0,
{
    let opened: EngineView = before.opened(zoom);
    let start: Grouping = Grouping {
        clusters: opened.clusters,
        issued: before.issued,
        changed: Set::empty(),
    };
    let end: Grouping = Grouping { clusters: after.clusters, issued: after.issued, changed };
    let trace: Seq<Grouping> = choose|trace: Seq<Grouping>|
        {
            &&& #[trigger] passes(
                geometry,
                trace,
                opened.markers,
                map_bounds,
                zoom,
                before.config,
            )
            &&& trace.first() == start
            &&& trace.last() == end
        };
    lemma_idle_pass_so_far(
        geometry,
        trace,
        opened.markers,
        map_bounds,
        zoom,
        before.config,
        opened.markers.len() as int,
    );
    assert(after.markers =~= opened.markers);
    if before.config.only_return_modified_clusters {
        lemma_filter_none(
            after.clusters,
            |cluster: ClusterView| changed.contains(cluster.uuid.serial),
        );
    }
}

/// The clusters that a call hands back, where only the changed ones are asked
/// for, are exactly those that the call founded or gave a marker to; every
/// other cluster is as it was.
pub proof fn lemma_call_returns_the_touched<D, X, M>(
    geometry: &Geometry<D, X, M>,
    before: EngineView,
    bounds: Bounds,
    zoom: usize,
    map_bounds: Bounds,
    changed: Set<u64>,
    after: EngineView,
    returned: Seq<ClusterView>,
    j: int,
) where
    D: Fn(Marker, Marker) -> Double,
    X: Fn(Bounds, usize, Double) -> Bounds,
    M: Fn(Double, u32, Double) -> Double,

    requires
        before.wf(),
        answers(geometry, before, bounds, zoom, map_bounds, changed, after, returned),
        before.config.only_return_modified_clusters,
        0 <= j < after.clusters.len(),
    ensures
        returned.contains(after.clusters[j]) <==> touched(
            before.opened(zoom).clusters,
            after.clusters,
            j,
        ),
        !touched(before.opened(zoom).clusters, after.clusters, j) ==> after.clusters[j]
            == before.opened(zoom).clusters[j],
{
    let opened: EngineView = before.opened(zoom);
    lemma_call_tracks(geometry, before, bounds, zoom, map_bounds, changed, after, returned);
    let wanted = |cluster: ClusterView| changed.contains(cluster.uuid.serial);
    lemma_touched_serial(opened.clusters, after.clusters, after.issued, j);
    assert(changed =~= touched_serials(opened.clusters, after.clusters));
    if touched(opened.clusters, after.clusters, j) {
        assert(wanted(after.clusters[j]));
        after.clusters.lemma_filter_contains(wanted, j);
    }
    if returned.contains(after.clusters[j]) {
        let i: int = choose|i: int| 0 <= i < returned.len() && returned[i] == after.clusters[j];
        after.clusters.lemma_filter_pred(wanted, i);
    }
}

/// Every call keeps the clusters it sets out from in place and under their
/// identities, gives each cluster it founds a serial number that had not been
/// issued before the call, leaves the identities distinct, and records as
/// changed the clusters it touched.
pub proof fn lemma_call_tracks<D, X, M>(
    geometry: &Geometry<D, X, M>,
    before: EngineView,
    bounds: Bounds,
    zoom: usize,
    map_bounds: Bounds,
    changed: Set<u64>,
    after: EngineView,
    returned: Seq<ClusterView>,
) where
    D: Fn(Marker, Marker) -> Double,
    X: Fn(Bounds, usize, Double) -> Bounds,
    M: Fn(Double, u32, Double) -> Double,

    requires
        before.wf(),
        answers(geometry, before, bounds, zoom, map_bounds, changed, after, returned),
    ensures
        follows(
            Grouping {
                clusters: before.opened(zoom).clusters,
                issued: before.issued,
                changed: Set::empty(),
            },
            Grouping { clusters: after.clusters, issued: after.issued, changed },
        ),
{
    let opened: EngineView = before.opened(zoom);
    lemma_none_consumed(released(before.markers));
    lemma_room_for_pending(opened.clusters, opened.markers);
    lemma_pass_tracks(
        geometry,
        Grouping { clusters: opened.clusters, issued: before.issued, changed: Set::empty() },
        opened.markers,
        map_bounds,
        zoom,
        before.config,
        Grouping { clusters: after.clusters, issued: after.issued, changed },
    );
}

/// Moving a marker's flag does not move the marker.
pub proof fn lemma_released_inside(markers: Seq<UniqueMarker>, map_bounds: Bounds)
    ensures
        count_inside(released(markers), map_bounds) == count_inside(markers, map_bounds),
    decreases markers.len(),
{
    if markers.len() > 0 {
        lemma_released_inside(markers.drop_last(), map_bounds);
        assert(released(markers).drop_last() =~= released(markers.drop_last()));
    }
}

/// A call at another zoom level than that of the clusters starts afresh.
/// Every cluster after the call, stored or handed back, bears a serial
/// number that had not been issued before it, so that no identity from
/// before the call is seen again. The markers are the same, in the same
/// order. Each, whether it was in a cluster or not, is taken up again just
/// when it lies strictly inside the widened bounds; it is then a member of
/// one cluster, once, and otherwise of none. The sizes of the clusters sum to
/// the number of the markers inside.
pub proof fn lemma_zoom_change_starts_afresh<D, X, M>(
    geometry: &Geometry<D, X, M>,
    before: EngineView,
    bounds: Bounds,
    zoom: usize,
    map_bounds: Bounds,
    changed: Set<u64>,
    after: EngineView,
    returned: Seq<ClusterView>,
) where
    D: Fn(Marker, Marker) -> Double,
    X: Fn(Bounds, usize, Double) -> Bounds,
    M: Fn(Double, u32, Double) -> Double,

    requires
        before.wf(),
        before.epoch_zoom != Some(zoom),
        answers(geometry, before, bounds, zoom, map_bounds, changed, after, returned),
    ensures
        before.issued <= after.issued,
        forall|j: int|
            0 <= j < after.clusters.len() ==> (#[trigger] after.clusters[j]).uuid.serial
                >= before.issued,
        forall|i: int, j: int|
            0 <= i < before.clusters.len() && 0 <= j < after.clusters.len() ==> (
            #[trigger] after.clusters[j]).uuid != (#[trigger] before.clusters[i]).uuid,
        forall|i: int, r: int|
            0 <= i < before.clusters.len() && 0 <= r < returned.len() ==> (
            #[trigger] returned[r]).uuid != (#[trigger] before.clusters[i]).uuid,
        after.epoch_zoom == Some(zoom),
        after.markers.len() == before.markers.len(),
        forall|k: int|
            0 <= k < before.markers.len() ==> {
                &&& (#[trigger] after.markers[k]).is_added == map_bounds.holds(
                    before.markers[k].position(),
                )
                &&& after.markers[k].uuid == before.markers[k].uuid
                &&& after.markers[k].position() == before.markers[k].position()
                &&& all_members(after.clusters).count(after.markers[k]) == if map_bounds.holds(
                    before.markers[k].position(),
                ) {
                    1nat
                } else {
                    0nat
                }
            },
        total_size(after.clusters) == count_inside(before.markers, map_bounds),
{
    let opened: EngineView = before.opened(zoom);
    lemma_call_tracks(geometry, before, bounds, zoom, map_bounds, changed, after, returned);
    lemma_call_keeps_sound(geometry, before, bounds, zoom, map_bounds, changed, after, returned);
    assert forall|k: int| 0 <= k < before.markers.len() implies all_members(after.clusters).count(
        #[trigger] after.markers[k],
    ) == if map_bounds.holds(before.markers[k].position()) {
        1nat
    } else {
        0nat
    } by {
        lemma_member_of_one_cluster(after, k);
    }
    assert forall|i: int, r: int|
        0 <= i < before.clusters.len() && 0 <= r < returned.len() implies (
    #[trigger] returned[r]).uuid != (#[trigger] before.clusters[i]).uuid by {
        lemma_returned_is_stored(after.clusters, changed, before.config.only_return_modified_clusters, r);
        let j: int = choose|j: int| 0 <= j < after.clusters.len() && after.clusters[j] == returned[r];
        assert(after.clusters[j].uuid.serial >= before.issued);
        assert(before.clusters[i].uuid.serial < before.issued);
    }
    assert forall|i: int, j: int|
        0 <= i < before.clusters.len() && 0 <= j < after.clusters.len() implies (
    #[trigger] after.clusters[j]).uuid != (#[trigger] before.clusters[i]).uuid by {
        assert(after.clusters[j].uuid.serial >= before.issued);
        assert(before.clusters[i].uuid.serial < before.issued);
    }
    lemma_first_pass_counts(
        geometry,
        Grouping { clusters: opened.clusters, issued: before.issued, changed: Set::empty() },
        opened.markers,
        map_bounds,
        zoom,
        before.config,
        Grouping { clusters: after.clusters, issued: after.issued, changed },
    );
    lemma_released_inside(before.markers, map_bounds);
}

/// Where no cluster has shrunk, the sizes sum to at least what they did.
pub proof fn lemma_total_size_grows(earlier: Seq<ClusterView>, later: Seq<ClusterView>)
    requires
        earlier.len() == later.len(),
        forall|j: int| 0 <= j < earlier.len() ==> earlier[j].size <= (#[trigger] later[j]).size,
    ensures
        total_size(earlier) <= total_size(later),
        total_size(earlier) == total_size(later) ==> forall|j: int|
            0 <= j < earlier.len() ==> earlier[j].size == (#[trigger] later[j]).size,
    decreases earlier.len(),
{
    if earlier.len() > 0 {
        assert(later.last() == later[later.len() - 1]);
        lemma_total_size_grows(earlier.drop_last(), later.drop_last());
        if total_size(earlier) == total_size(later) {
            assert forall|j: int| 0 <= j < earlier.len() implies earlier[j].size == (
            #[trigger] later[j]).size by {
                if j < earlier.len() - 1 {
                    assert(later.drop_last()[j] == later[j]);
                }
            }
        }
    }
}

/// Where no cluster has shrunk and the sizes sum to one more than they did,
/// one cluster has grown by one and the others are the size they were.
pub proof fn lemma_one_grew(earlier: Seq<ClusterView>, later: Seq<ClusterView>) -> (c: int)
    requires
        earlier.len() == later.len(),
        forall|j: int| 0 <= j < earlier.len() ==> earlier[j].size <= (#[trigger] later[j]).size,
        total_size(later) == total_size(earlier) + 1,
    ensures
        0 <= c < later.len(),
        later[c].size == earlier[c].size + 1,
        forall|j: int|
            0 <= j < earlier.len() && j != c ==> earlier[j].size == (#[trigger] later[j]).size,
    decreases earlier.len(),
{
    let last: int = earlier.len() - 1;
    assert(later.last() == later[last]);
    lemma_total_size_grows(earlier.drop_last(), later.drop_last());
    if later[last].size == earlier[last].size {
        let c: int = lemma_one_grew(earlier.drop_last(), later.drop_last());
        assert forall|j: int| 0 <= j < earlier.len() && j != c implies earlier[j].size == (
        #[trigger] later[j]).size by {
            if j < last {
                assert(later.drop_last()[j] == later[j]);
            }
        }
        c
    } else {
        assert forall|j: int| 0 <= j < earlier.len() && j != last implies earlier[j].size == (
        #[trigger] later[j]).size by {
            assert(later.drop_last()[j] == later[j]);
        }
        last
    }
}

/// A call that adds one marker to a cluster that was there, and founds none,
/// hands back exactly that cluster where only the changed clusters are asked
/// for: the one cluster that is one larger than it was. Every other cluster
/// is as it was.
pub proof fn lemma_single_join_returns_one<D, X, M>(
    geometry: &Geometry<D, X, M>,
    before: EngineView,
    bounds: Bounds,
    zoom: usize,
    map_bounds: Bounds,
    changed: Set<u64>,
    after: EngineView,
    returned: Seq<ClusterView>,
) -> (c: int) where
    D: Fn(Marker, Marker) -> Double,
    X: Fn(Bounds, usize, Double) -> Bounds,
    M: Fn(Double, u32, Double) -> Double,

    requires
        before.wf(),
        answers(geometry, before, bounds, zoom, map_bounds, changed, after, returned),
        before.config.only_return_modified_clusters,
        after.clusters.len() == before.opened(zoom).clusters.len(),
        total_size(after.clusters) == total_size(before.opened(zoom).clusters) + 1,
    ensures
        0 <= c < after.clusters.len(),
        returned == seq![after.clusters[c]],
        after.clusters[c].size == before.opened(zoom).clusters[c].size + 1,
        forall|j: int|
            0 <= j < after.clusters.len() && j != c ==> #[trigger] after.clusters[j]
                == before.opened(zoom).clusters[j],
{
    let opened: EngineView = before.opened(zoom);
    lemma_call_tracks(geometry, before, bounds, zoom, map_bounds, changed, after, returned);
    let c: int = lemma_one_grew(opened.clusters, after.clusters);
    let wanted = |cluster: ClusterView| changed.contains(cluster.uuid.serial);
    assert(changed =~= touched_serials(opened.clusters, after.clusters));
    assert forall|j: int| 0 <= j < after.clusters.len() implies (wanted(
        #[trigger] after.clusters[j],
    ) <==> j == c) by {
        lemma_touched_serial(opened.clusters, after.clusters, after.issued, j);
    }
    lemma_filter_one(after.clusters, wanted, c);
    c
}

/// Where every cluster is wanted, every cluster is kept.
pub proof fn lemma_filter_all(all: Seq<ClusterView>, wanted: spec_fn(ClusterView) -> bool)
    requires
        forall|j: int| 0 <= j < all.len() ==> wanted(#[trigger] all[j]),
    ensures
        all.filter(wanted) == all,
    decreases all.len(),
{
    reveal(Seq::filter);
    if all.len() > 0 {
        lemma_filter_all(all.drop_last(), wanted);
        assert(all.drop_last().push(all.last()) =~= all);
    }
}

/// A call that sets out without clusters and with every marker free, as the
/// first call of an engine does and every call at a new zoom level, hands
/// back all the clusters there are, whatever the settings, and their sizes
/// sum to the number of markers that lie strictly inside the widened bounds.
/// Markers outside those bounds are not counted.
pub proof fn lemma_first_call_counts<D, X, M>(
    geometry: &Geometry<D, X, M>,
    before: EngineView,
    bounds: Bounds,
    zoom: usize,
    map_bounds: Bounds,
    changed: Set<u64>,
    after: EngineView,
    returned: Seq<ClusterView>,
) where
    D: Fn(Marker, Marker) -> Double,
    X: Fn(Bounds, usize, Double) -> Bounds,
    M: Fn(Double, u32, Double) -> Double,

    requires
        before.wf(),
        answers(geometry, before, bounds, zoom, map_bounds, changed, after, returned),
        before.opened(zoom).clusters.len() == 0,
    ensures
        returned == after.clusters,
        total_size(returned) == count_inside(before.markers, map_bounds),
{
    let opened: EngineView = before.opened(zoom);
    lemma_call_tracks(geometry, before, bounds, zoom, map_bounds, changed, after, returned);
    if before.config.only_return_modified_clusters {
        let wanted = |cluster: ClusterView| changed.contains(cluster.uuid.serial);
        assert(changed =~= touched_serials(opened.clusters, after.clusters));
        assert forall|j: int| 0 <= j < after.clusters.len() implies wanted(
            #[trigger] after.clusters[j],
        ) by {
            lemma_touched_serial(opened.clusters, after.clusters, after.issued, j);
        }
        lemma_filter_all(after.clusters, wanted);
    }
    lemma_none_consumed(released(before.markers));
    if before.epoch_zoom == Some(zoom) {
        assert(total_size(opened.clusters) == 0);
        lemma_all_free(opened.markers);
    }
    lemma_first_pass_counts(
        geometry,
        Grouping { clusters: opened.clusters, issued: before.issued, changed: Set::empty() },
        opened.markers,
        map_bounds,
        zoom,
        before.config,
        Grouping { clusters: after.clusters, issued: after.issued, changed },
    );
    if before.epoch_zoom != Some(zoom) {
        lemma_released_inside(before.markers, map_bounds);
    }
}

/// Markers of which none counts as consumed are all free.
pub proof fn lemma_all_free(markers: Seq<UniqueMarker>)
    requires
        count_consumed(markers) == 0,
    ensures
        forall|i: int| 0 <= i < markers.len() ==> !(#[trigger] markers[i]).is_added,
    decreases markers.len(),
{
    if markers.len() > 0 {
        lemma_all_free(markers.drop_last());
        assert forall|i: int| 0 <= i < markers.len() implies !(#[trigger] markers[i]).is_added by {
            if i < markers.len() - 1 {
                assert(markers.drop_last()[i] == markers[i]);
            }
        }
    }
}

/// Two ways of choosing that agree on every cluster keep the same clusters.
pub proof fn lemma_filter_same(
    all: Seq<ClusterView>,
    wanted: spec_fn(ClusterView) -> bool,
    asked: spec_fn(ClusterView) -> bool,
)
    requires
        forall|j: int| 0 <= j < all.len() ==> wanted(#[trigger] all[j]) == asked(all[j]),
    ensures
        all.filter(wanted) == all.filter(asked),
    decreases all.len(),
{
    reveal(Seq::filter);
    if all.len() > 0 {
        lemma_filter_same(all.drop_last(), wanted, asked);
    }
}

/// Clusters with distinct serial numbers, chosen by serial number from a
/// finite set, are at most as many as the set has numbers.
pub proof fn lemma_chosen_are_few(all: Seq<ClusterView>, issued: nat, changed: Set<u64>)
    requires
        distinct_below(all, issued),
        changed.finite(),
    ensures
        handed_back(all, changed, true).len() <= changed.len(),
    decreases all.len(),
{
    reveal(Seq::filter);
    let wanted = |cluster: ClusterView| changed.contains(cluster.uuid.serial);
    if all.len() > 0 {
        let rest: Seq<ClusterView> = all.drop_last();
        let last: ClusterView = all.last();
        assert(distinct_below(rest, issued)) by {
            assert forall|i: int| 0 <= i < rest.len() implies (#[trigger] rest[i]).uuid.serial
                < issued by {
                assert(rest[i] == all[i]);
            }
            assert forall|i: int, j: int| 0 <= i < j < rest.len() implies (
            #[trigger] rest[i]).uuid.serial != (#[trigger] rest[j]).uuid.serial by {
                assert(rest[i] == all[i]);
                assert(rest[j] == all[j]);
            }
        }
        if changed.contains(last.uuid.serial) {
            let fewer: Set<u64> = changed.remove(last.uuid.serial);
            let asked = |cluster: ClusterView| fewer.contains(cluster.uuid.serial);
            assert forall|j: int| 0 <= j < rest.len() implies wanted(#[trigger] rest[j]) == asked(
                rest[j],
            ) by {
                assert(rest[j] == all[j]);
                assert(all[j].uuid.serial != all[all.len() - 1].uuid.serial);
            }
            lemma_filter_same(rest, wanted, asked);
            lemma_chosen_are_few(rest, issued, fewer);
        } else {
            lemma_chosen_are_few(rest, issued, changed);
        }
    }
}

/// Where only the changed clusters are asked for, a call hands back at most
/// as many clusters as it took markers up.
pub proof fn lemma_call_returns_few<D, X, M>(
    geometry: &Geometry<D, X, M>,
    before: EngineView,
    bounds: Bounds,
    zoom: usize,
    map_bounds: Bounds,
    changed: Set<u64>,
    after: EngineView,
    returned: Seq<ClusterView>,
) where
    D: Fn(Marker, Marker) -> Double,
    X: Fn(Bounds, usize, Double) -> Bounds,
    M: Fn(Double, u32, Double) -> Double,

    requires
        before.wf(),
        answers(geometry, before, bounds, zoom, map_bounds, changed, after, returned),
        before.config.only_return_modified_clusters,
    ensures
        returned.len() <= count_eligible(before.opened(zoom).markers, map_bounds),
{
    let opened: EngineView = before.opened(zoom);
    lemma_call_tracks(geometry, before, bounds, zoom, map_bounds, changed, after, returned);
    lemma_pass_records_few(
        geometry,
        Grouping { clusters: opened.clusters, issued: before.issued, changed: Set::empty() },
        opened.markers,
        map_bounds,
        zoom,
        before.config,
        Grouping { clusters: after.clusters, issued: after.issued, changed },
    );
    lemma_chosen_are_few(after.clusters, after.issued, changed);
}

/// In every state of an engine, a stored marker that is flagged is listed as
/// a member once, in one cluster, and a free marker is listed in none.
pub proof fn lemma_member_of_one_cluster(engine: EngineView, k: int)
    requires
        engine.wf(),
        0 <= k < engine.markers.len(),
    ensures
        all_members(engine.clusters).count(engine.markers[k]) == if engine.markers[k].is_added {
            1nat
        } else {
            0nat
        },
{
    lemma_flagged_once(engine.markers, engine.issued, k);
}

/// Every cluster that is handed back is one of the clusters.
pub proof fn lemma_returned_is_stored(
    all: Seq<ClusterView>,
    changed: Set<u64>,
    only_modified: bool,
    r: int,
)
    requires
        0 <= r < handed_back(all, changed, only_modified).len(),
    ensures
        exists|j: int| 0 <= j < all.len() && all[j] == handed_back(all, changed, only_modified)[r],
{
    let returned: Seq<ClusterView> = handed_back(all, changed, only_modified);
    if only_modified {
        let wanted = |cluster: ClusterView| changed.contains(cluster.uuid.serial);
        assert(returned.contains(returned[r]));
        all.lemma_filter_contains_rev(wanted, returned[r]);
        let j: int = choose|j: int| 0 <= j < all.len() && all[j] == returned[r];
        assert(all[j] == returned[r]);
    } else {
        assert(all[r] == returned[r]);
    }
}

/// A call leaves an engine sound: what holds of every engine holds after the
/// call as it held before.
pub proof fn lemma_call_keeps_sound<D, X, M>(
    geometry: &Geometry<D, X, M>,
    before: EngineView,
    bounds: Bounds,
    zoom: usize,
    map_bounds: Bounds,
    changed: Set<u64>,
    after: EngineView,
    returned: Seq<ClusterView>,
) where
    D: Fn(Marker, Marker) -> Double,
    X: Fn(Bounds, usize, Double) -> Bounds,
    M: Fn(Double, u32, Double) -> Double,

    requires
        before.wf(),
        answers(geometry, before, bounds, zoom, map_bounds, changed, after, returned),
    ensures
        after.wf(),
{
    let opened: EngineView = before.opened(zoom);
    let start: Grouping = Grouping {
        clusters: opened.clusters,
        issued: before.issued,
        changed: Set::empty(),
    };
    let end: Grouping = Grouping { clusters: after.clusters, issued: after.issued, changed };
    lemma_call_tracks(geometry, before, bounds, zoom, map_bounds, changed, after, returned);
    lemma_none_consumed(released(before.markers));
    lemma_none_flagged(released(before.markers));
    lemma_room_for_pending(opened.clusters, opened.markers);
    lemma_pass_counts(geometry, start, opened.markers, map_bounds, zoom, before.config, end);
    lemma_swept_consumes(opened.markers, map_bounds);
    lemma_pass_fills(geometry, start, opened.markers, map_bounds, zoom, before.config, end);
    lemma_swept_flags(opened.markers, map_bounds);
}

} // verus!
