//! The clustering engine: the markers of one map, their clusters, and the
//! zoom level that the clusters were made for.

use std::collections::HashSet;
use vstd::prelude::*;
use crate::bounds::{calculate_extended_bounds, Bounds};
use crate::cluster::{Cluster, ClusterView};
use crate::clustering::{all_wf, cluster_markers, leads_to, swept, Grouping};
use crate::config::{Config, OptionalConfig};
use crate::counting::{
    count_consumed, lemma_appended_free, lemma_consumed_and_pending, lemma_none_consumed,
    lemma_pass_counts, lemma_room_for_pending, lemma_swept_consumes, total_size,
};
use crate::double::Double;
use crate::freshness::{distinct_below, lemma_pass_tracks};
use crate::geometry::{Geometry, UsageError, ZOOM_LIMIT};
use crate::identity::IdentitySource;
use crate::marker::{Marker, UniqueMarker};
use crate::members::{
    all_members, flagged, lemma_flagged_appended, lemma_none_flagged, lemma_pass_fills,
    lemma_swept_flags,
};
use crate::store::{distinct_markers_below, released, wraps, MarkerStore};

verus! {

broadcast use vstd::std_specs::hash::group_hash_axioms;

/// The state of an engine as a mathematical value.
pub struct EngineView {
    pub markers: Seq<UniqueMarker>,
    pub clusters: Seq<ClusterView>,
    pub epoch_zoom: Option<usize>,
    pub config: Config,
    pub issued: nat,
}

impl EngineView {
    /// What holds of every engine: each cluster's size counts its members,
    /// no two clusters share a serial number and no two markers do, the
    /// member lists of the clusters hold the stored markers that are flagged
    /// as being in a cluster, each once, and nothing else, and so the sizes of
    /// the clusters sum to the number of those markers.
    pub open spec fn wf(&self) -> bool {
        &&& all_wf(self.clusters)
        &&& distinct_below(self.clusters, self.issued)
        &&& distinct_markers_below(self.markers, self.issued)
        &&& all_members(self.clusters) == flagged(self.markers)
        &&& total_size(self.clusters) == count_consumed(self.markers)
        &&& self.markers.len() <= u32::MAX
    }

    /// The state from which a clustering call at `zoom` sets out. At the zoom
    /// level of the clusters it is the present state. At another, every
    /// cluster is dropped and every marker is free again.
    pub open spec fn opened(&self, zoom: usize) -> EngineView {
        if self.epoch_zoom == Some(zoom) {
            *self
        } else {
            EngineView {
                markers: released(self.markers),
                clusters: Seq::empty(),
                epoch_zoom: Some(zoom),
                config: self.config,
                issued: self.issued,
            }
        }
    }
}

/// The clusters that a call hands back: all of them, or those whose serial
/// number was recorded as changed, in their order.
pub open spec fn handed_back(
    clusters: Seq<ClusterView>,
    changed: Set<u64>,
    only_modified: bool,
) -> Seq<ClusterView> {
    if only_modified {
        clusters.filter(|cluster: ClusterView| changed.contains(cluster.uuid.serial))
    } else {
        clusters
    }
}

/// What a clustering call does, once the widened bounds and the recorded
/// changes are named: starting from `before.opened(zoom)`, one pass over the
/// markers inside `map_bounds` leads to `after`.
pub open spec fn answers<D, X, M>(
    geometry: &Geometry<D, X, M>,
    before: EngineView,
    bounds: Bounds,
    zoom: usize,
    map_bounds: Bounds,
    changed: Set<u64>,
    after: EngineView,
    returned: Seq<ClusterView>,
) -> bool where
    D: Fn(Marker, Marker) -> Double,
    X: Fn(Bounds, usize, Double) -> Bounds,
    M: Fn(Double, u32, Double) -> Double,
 {
    let opened = before.opened(zoom);
    &&& geometry.extends(bounds, zoom, before.config.grid_size, map_bounds)
    &&& after.markers == swept(opened.markers, map_bounds)
    &&& leads_to(
        geometry,
        Grouping { clusters: opened.clusters, issued: before.issued, changed: Set::empty() },
        opened.markers,
        map_bounds,
        zoom,
        before.config,
        Grouping { clusters: after.clusters, issued: after.issued, changed },
    )
    &&& after.epoch_zoom == Some(zoom)
    &&& after.config == before.config
    &&& returned == handed_back(
        after.clusters,
        changed,
        before.config.only_return_modified_clusters,
    )
}

/// A clustering call of the viewport `bounds` at `zoom` leads from `before`
/// to `after` and hands back `returned`: `answers` holds for some widening
/// of the viewport that the geometry gave.
pub open spec fn responds<D, X, M>(
    geometry: &Geometry<D, X, M>,
    before: EngineView,
    bounds: Bounds,
    zoom: usize,
    after: EngineView,
    returned: Seq<ClusterView>,
) -> bool where
    D: Fn(Marker, Marker) -> Double,
    X: Fn(Bounds, usize, Double) -> Bounds,
    M: Fn(Double, u32, Double) -> Double,
 {
    exists|map_bounds: Bounds, changed: Set<u64>| #[trigger]
        answers(geometry, before, bounds, zoom, map_bounds, changed, after, returned)
}

/// The markers of one map and the clusters made of them.
pub struct ClusteringEngine {
    markers: MarkerStore,
    clusters: Vec<Cluster>,
    epoch_zoom: Option<usize>,
    config: Config,
    ids: IdentitySource,
}

impl View for ClusteringEngine {
    type V = EngineView;

    closed spec fn view(&self) -> EngineView {
        EngineView {
            markers: self.markers@,
            clusters: self.clusters.deep_view(),
            epoch_zoom: self.epoch_zoom,
            config: self.config,
            issued: self.ids.issued(),
        }
    }
}

/// Copies of all the clusters.
pub fn duplicate_all(clusters: &Vec<Cluster>) -> (copies: Vec<Cluster>)
    ensures
        copies.deep_view() == clusters.deep_view(),
{
    let mut copies: Vec<Cluster> = Vec::new();
    let mut i: usize = 0;
    while i < clusters.len()
        invariant
            i <= clusters@.len(),
            copies@.len() == i,
            forall|k: int| 0 <= k < i ==> (#[trigger] copies@[k])@ == clusters@[k]@,
        decreases clusters@.len() - i,
    {
        copies.push(clusters[i].clone());
        i += 1;
    }
    assert(copies.deep_view() =~= clusters.deep_view()) by {
        assert forall|k: int| 0 <= k < clusters@.len() implies copies.deep_view()[k]
            == clusters.deep_view()[k] by {
            assert(copies.deep_view()[k] == copies@[k]@);
            assert(clusters.deep_view()[k] == clusters@[k]@);
        }
    }
    copies
}

/// Copies of the clusters whose serial number is in `changed`, in their order.
pub fn select_modified(clusters: &Vec<Cluster>, changed: &HashSet<u64>) -> (copies: Vec<Cluster>)
    ensures
        copies.deep_view() == handed_back(clusters.deep_view(), changed@, true),
{
    let ghost all: Seq<ClusterView> = clusters.deep_view();
    let ghost wanted = |cluster: ClusterView| changed@.contains(cluster.uuid.serial);
    let mut copies: Vec<Cluster> = Vec::new();
    let mut i: usize = 0;
    proof {
        reveal(Seq::filter);
        assert(all.take(0).filter(wanted) =~= Seq::<ClusterView>::empty());
        assert(copies.deep_view() =~= Seq::<ClusterView>::empty());
    }
    while i < clusters.len()
        invariant
            all == clusters.deep_view(),
            wanted == |cluster: ClusterView| changed@.contains(cluster.uuid.serial),
            i <= clusters@.len(),
            copies.deep_view() == all.take(i as int).filter(wanted),
        decreases clusters@.len() - i,
    {
        let ghost so_far: Seq<ClusterView> = copies.deep_view();
        let ghost prior: Seq<Cluster> = copies@;
        proof {
            reveal(Seq::filter);
            assert(all.take(i + 1).drop_last() =~= all.take(i as int));
            assert(all.take(i + 1).last() == clusters@[i as int]@);
        }
        if changed.contains(&clusters[i].uuid.serial) {
            copies.push(clusters[i].clone());
            proof {
                assert(copies.deep_view() =~= so_far.push(clusters@[i as int]@)) by {
                    assert forall|k: int| 0 <= k < copies@.len() implies copies.deep_view()[k]
                        == so_far.push(clusters@[i as int]@)[k] by {
                        assert(copies.deep_view()[k] == copies@[k]@);
                        if k < so_far.len() {
                            assert(so_far[k] == prior[k]@);
                        }
                    }
                }
            }
        }
        i += 1;
    }
    proof {
        assert(all.take(i as int) =~= all);
    }
    copies
}

impl ClusteringEngine {
    /// An engine without markers or clusters, with the settings that
    /// clustering starts with and no zoom level yet.
    pub fn new() -> (engine: ClusteringEngine)
        ensures
            engine@.wf(),
            engine@ == (EngineView {
                markers: Seq::empty(),
                clusters: Seq::empty(),
                epoch_zoom: None,
                config: Config::initial(),
                issued: 0,
            }),
    {
        let engine = ClusteringEngine {
            markers: MarkerStore::new(),
            clusters: Vec::new(),
            epoch_zoom: None,
            config: Config::default(),
            ids: IdentitySource::new(),
        };
        proof {
            assert(engine.clusters.deep_view() =~= Seq::<ClusterView>::empty());
            assert(engine.markers@ =~= Seq::<UniqueMarker>::empty());
        }
        engine
    }

    /// Takes over the settings that `options` holds and keeps the others.
    pub fn configure(&mut self, options: OptionalConfig)
        ensures
            final(self)@ == (EngineView { config: old(self)@.config.merged(options), ..old(self)@ }),
    {
        self.config.apply_options(options);
    }

    /// The settings in force.
    pub fn config(&self) -> (config: Config)
        ensures
            config == self@.config,
    {
        self.config
    }

    /// The zoom level that the clusters were made for, if there is one.
    pub fn zoom(&self) -> (zoom: Option<usize>)
        ensures
            zoom == self@.epoch_zoom,
    {
        self.epoch_zoom
    }

    /// How many markers the engine holds.
    pub fn marker_count(&self) -> (count: usize)
        ensures
            count == self@.markers.len(),
    {
        self.markers.len()
    }

    /// How many clusters the engine holds.
    pub fn cluster_count(&self) -> (count: usize)
        ensures
            count == self@.clusters.len(),
    {
        self.clusters.len()
    }

    /// Copies of all the markers, in their order.
    pub fn markers(&self) -> (copies: Vec<UniqueMarker>)
        ensures
            copies@ == self@.markers,
    {
        self.markers.to_vec()
    }

    /// Copies of all the clusters, in their order.
    pub fn clusters(&self) -> (copies: Vec<Cluster>)
        ensures
            copies.deep_view() == self@.clusters,
    {
        duplicate_all(&self.clusters)
    }

    /// Whether `more` markers can be added: the store stays within
    /// `u32::MAX` markers, and there is an identity left for each.
    pub fn can_add(&self, more: usize) -> (room: bool)
        ensures
            room == (self@.markers.len() + more <= u32::MAX && self@.issued + more <= u64::MAX),
    {
        let held: usize = self.markers.len();
        if held > 0xFFFF_FFFF || more > 0xFFFF_FFFF {
            return false;
        }
        let held: u64 = held as u64;
        let more: u64 = more as u64;
        held + more <= 0xFFFF_FFFF && self.ids.remaining() >= more
    }

    /// Whether the markers can be clustered: there is an identity left for
    /// as many clusters as there are markers.
    pub fn can_cluster(&self) -> (room: bool)
        ensures
            room == (self@.issued + self@.markers.len() <= u64::MAX),
    {
        self.ids.remaining() >= self.markers.len() as u64
    }

    /// Puts the points into the store, in their order, behind the markers
    /// that are there: each as a marker of its own, in no cluster.
    pub fn add_markers(&mut self, points: &Vec<Marker>)
        requires
            old(self)@.wf(),
            old(self)@.markers.len() + points@.len() <= u32::MAX,
            old(self)@.issued + points@.len() <= u64::MAX,
        ensures
            final(self)@.wf(),
            final(self)@ == (EngineView {
                markers: final(self)@.markers,
                issued: old(self)@.issued + points@.len(),
                ..old(self)@
            }),
            final(self)@.markers.len() == old(self)@.markers.len() + points@.len(),
            final(self)@.markers.take(old(self)@.markers.len() as int) == old(self)@.markers,
            wraps(
                points@,
                old(self)@.issued,
                final(self)@.markers.skip(old(self)@.markers.len() as int),
            ),
            forall|i: int, j: int|
                0 <= i < old(self)@.markers.len() <= j < final(self)@.markers.len() ==> (
                #[trigger] final(self)@.markers[j]).uuid != (#[trigger] old(self)@.markers[i]).uuid,
    {
        let ghost held: int = self.markers@.len() as int;
        self.markers.append(points, &mut self.ids);
        proof {
            let added: Seq<UniqueMarker> = self.markers@.skip(held);
            assert forall|i: int| held <= i < self.markers@.len() implies !(
            #[trigger] self.markers@[i]).is_added by {
                assert(added[i - held] == self.markers@[i]);
            }
            lemma_appended_free(self.markers@, held);
            lemma_flagged_appended(self.markers@, held);
            assert forall|k: int| 0 <= k < self@.clusters.len() implies (
            #[trigger] self@.clusters[k]).uuid.serial < self@.issued by {
                assert(old(self)@.clusters[k].uuid.serial < old(self)@.issued);
            }
        }
    }

    /// Drops every marker and every cluster, and forgets the zoom level. The
    /// settings stay.
    pub fn clear(&mut self)
        ensures
            final(self)@.wf(),
            final(self)@ == (EngineView {
                markers: Seq::empty(),
                clusters: Seq::empty(),
                epoch_zoom: None,
                ..old(self)@
            }),
    {
        self.markers.clear();
        self.clusters.clear();
        self.epoch_zoom = None;
        proof {
            assert(self.clusters.deep_view() =~= Seq::<ClusterView>::empty());
        }
    }

    /// Frees every marker and drops every cluster, unless the clusters were
    /// made for this zoom level, and makes the zoom level the present one.
    fn open_epoch(&mut self, zoom: usize)
        requires
            old(self)@.wf(),
        ensures
            final(self)@.wf(),
            final(self)@ == old(self)@.opened(zoom),
    {
        let same: bool = match self.epoch_zoom {
            Some(present) => present == zoom,
            None => false,
        };
        if same {
            return ;
        }
        self.clusters.clear();
        self.markers.reset_consumed_flags();
        self.epoch_zoom = Some(zoom);
        proof {
            assert(self.clusters.deep_view() =~= Seq::<ClusterView>::empty());
            lemma_none_consumed(self.markers@);
            lemma_none_flagged(self.markers@);
        }
    }

    /// Clusters the markers that are in no cluster yet and lie strictly
    /// inside the viewport `bounds`, widened by the grid size at `zoom`.
    ///
    /// Clusters made for another zoom level are dropped first, and every
    /// marker is free again. Hands back copies of the clusters that took a
    /// marker in or were founded, or of all clusters if the settings say so.
    /// A zoom level that cannot be projected is refused and changes nothing.
    pub fn cluster_markers_in_bounds<D, X, M>(
        &mut self,
        bounds: &Bounds,
        zoom: usize,
        geometry: &Geometry<D, X, M>,
    ) -> (returned: Result<Vec<Cluster>, UsageError>) where
        D: Fn(Marker, Marker) -> Double,
        X: Fn(Bounds, usize, Double) -> Bounds,
        M: Fn(Double, u32, Double) -> Double,

        requires
            old(self)@.wf(),
            old(self)@.issued + old(self)@.markers.len() <= u64::MAX,
        ensures
            final(self)@.wf(),
            zoom >= ZOOM_LIMIT ==> {
                &&& returned matches Err(UsageError::ZoomOutOfRange)
                &&& final(self)@ == old(self)@
            },
            zoom < ZOOM_LIMIT ==> returned is Ok && responds(
                geometry,
                old(self)@,
                *bounds,
                zoom,
                final(self)@,
                returned->Ok_0.deep_view(),
            ),
    {
        let config: Config = self.config;
        let map_bounds: Bounds = match calculate_extended_bounds(
            bounds,
            zoom,
            config.grid_size,
            geometry,
        ) {
            Ok(map_bounds) => map_bounds,
            Err(refused) => {
                return Err(refused);
            },
        };
        self.open_epoch(zoom);
        let ghost opened: EngineView = self@;
        proof {
            lemma_consumed_and_pending(opened.markers);
            lemma_room_for_pending(opened.clusters, opened.markers);
        }
        let modified: HashSet<u64> = match cluster_markers(
            &mut self.clusters,
            &mut self.markers.markers,
            &map_bounds,
            zoom,
            &config,
            &mut self.ids,
            geometry,
        ) {
            Ok(modified) => modified,
            Err(refused) => {
                return Err(refused);
            },
        };
        proof {
            let start: Grouping = Grouping {
                clusters: opened.clusters,
                issued: opened.issued,
                changed: Set::empty(),
            };
            let end: Grouping = Grouping {
                clusters: self@.clusters,
                issued: self@.issued,
                changed: modified@,
            };
            lemma_pass_counts(geometry, start, opened.markers, map_bounds, zoom, config, end);
            lemma_swept_consumes(opened.markers, map_bounds);
            lemma_pass_fills(geometry, start, opened.markers, map_bounds, zoom, config, end);
            lemma_swept_flags(opened.markers, map_bounds);
            lemma_pass_tracks(geometry, start, opened.markers, map_bounds, zoom, config, end);
        }
        let returned: Vec<Cluster> = if !config.only_return_modified_clusters {
            duplicate_all(&self.clusters)
        } else {
            select_modified(&self.clusters, &modified)
        };
        proof {
            assert(answers(
                geometry,
                old(self)@,
                *bounds,
                zoom,
                map_bounds,
                modified@,
                self@,
                returned.deep_view(),
            ));
        }
        Ok(returned)
    }
}

} // verus!
