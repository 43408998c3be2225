use marker_clusterer::bounds::Bounds;
use marker_clusterer::cluster::Cluster;
use marker_clusterer::config::{Config, OptionalConfig};
use marker_clusterer::double::Double;
use marker_clusterer::engine::ClusteringEngine;
use marker_clusterer::geometry::{Geometry, UsageError};
use marker_clusterer::marker::Marker;

type Distance = fn(Marker, Marker) -> Double;
type Extend = fn(Bounds, usize, Double) -> Bounds;
type Mean = fn(Double, u32, Double) -> Double;

fn num(value: f64) -> Double {
    Double::from_bits(value.to_bits())
}

fn float(value: Double) -> f64 {
    f64::from_bits(value.to_bits())
}

fn haversine(first: Marker, second: Marker) -> Double {
    let (lat1, lng1, lat2, lng2) = (float(first.lat), float(first.lng), float(second.lat), float(second.lng));
    let delta_latitude = (lat1 - lat2).to_radians();
    let delta_longitude = (lng1 - lng2).to_radians();
    let inner = (delta_latitude / 2.0).sin().powi(2)
        + lat1.to_radians().cos() * lat2.to_radians().cos() * (delta_longitude / 2.0).sin().powi(2);
    num(6371.0 * 2.0 * inner.sqrt().asin())
}

fn extend(bounds: Bounds, zoom: usize, grid_size: Double) -> Bounds {
    let grid_size = float(grid_size);
    let ne = googleprojection::from_ll_to_subpixel(&(float(bounds.east), float(bounds.north)), zoom)
        .unwrap();
    let sw = googleprojection::from_ll_to_subpixel(&(float(bounds.west), float(bounds.south)), zoom)
        .unwrap();
    let north_east =
        googleprojection::from_pixel_to_ll(&(ne.0 + grid_size, ne.1 - grid_size), zoom).unwrap();
    let south_west =
        googleprojection::from_pixel_to_ll(&(sw.0 - grid_size, sw.1 + grid_size), zoom).unwrap();
    Bounds {
        north: num(north_east.1),
        east: num(north_east.0),
        south: num(south_west.1),
        west: num(south_west.0),
    }
}

fn mean(center: Double, count: u32, coordinate: Double) -> Double {
    num((float(center) * f64::from(count) + float(coordinate)) / f64::from(count + 1))
}

fn geometry() -> Geometry<Distance, Extend, Mean> {
    Geometry::new(haversine as Distance, extend as Extend, mean as Mean)
}

fn point(lat: f64, lng: f64) -> Marker {
    Marker { lat: num(lat), lng: num(lng) }
}

fn viewport() -> Bounds {
    Bounds { north: num(45.0), east: num(-75.0), south: num(40.0), west: num(-81.0) }
}

fn sizes(clusters: &[Cluster]) -> Vec<u32> {
    clusters.iter().map(|c| c.size).collect()
}

#[test]
fn a_new_engine_is_empty_with_the_default_settings() {
    let engine = ClusteringEngine::new();
    assert_eq!(engine.marker_count(), 0);
    assert_eq!(engine.cluster_count(), 0);
    assert_eq!(engine.zoom(), None);
    assert_eq!(engine.config(), Config::default());
    assert!(engine.can_add(10));
    assert!(engine.can_add(u32::MAX as usize));
    assert!(engine.can_cluster());
}

#[test]
fn configure_merges_into_the_live_settings() {
    let mut engine = ClusteringEngine::new();
    engine.configure(OptionalConfig { average_center: Some(true), ..OptionalConfig::default() });
    engine.configure(OptionalConfig { grid_size: Some(num(30.0)), ..OptionalConfig::default() });
    assert_eq!(
        engine.config(),
        Config {
            grid_size: num(30.0),
            average_center: true,
            log_time: false,
            only_return_modified_clusters: true,
        }
    );
}

#[test]
fn a_call_returns_the_clusters_it_changed() {
    let g = geometry();
    let mut engine = ClusteringEngine::new();
    engine.add_markers(&vec![point(43.0, -79.0); 5]);
    assert_eq!(engine.marker_count(), 5);
    let first = engine.cluster_markers_in_bounds(&viewport(), 8, &g).unwrap();
    assert_eq!(sizes(&first), vec![5]);
    assert_eq!(engine.zoom(), Some(8));
    assert_eq!(engine.cluster_count(), 1);

    let idle = engine.cluster_markers_in_bounds(&viewport(), 8, &g).unwrap();
    assert!(idle.is_empty());
    assert_eq!(engine.cluster_count(), 1);

    engine.add_markers(&vec![point(41.0, -76.0), point(41.0, -76.0)]);
    let second = engine.cluster_markers_in_bounds(&viewport(), 8, &g).unwrap();
    assert_eq!(sizes(&second), vec![2]);
    assert_eq!(engine.cluster_count(), 2);

    engine.add_markers(&vec![point(43.0, -79.0)]);
    let third = engine.cluster_markers_in_bounds(&viewport(), 8, &g).unwrap();
    assert_eq!(third.len(), 1);
    assert_eq!(third[0].size, 6);
    assert_eq!(third[0].uuid, first[0].uuid);
    assert_eq!(sizes(&engine.clusters()), vec![6, 2]);
}

#[test]
fn a_call_returns_all_clusters_when_told_to() {
    let g = geometry();
    let mut engine = ClusteringEngine::new();
    engine.configure(OptionalConfig {
        only_return_modified_clusters: Some(false),
        ..OptionalConfig::default()
    });
    engine.add_markers(&vec![point(43.0, -79.0), point(41.0, -76.0)]);
    let all = engine.cluster_markers_in_bounds(&viewport(), 8, &g).unwrap();
    assert_eq!(sizes(&all), vec![1, 1]);
    let again = engine.cluster_markers_in_bounds(&viewport(), 8, &g).unwrap();
    assert_eq!(sizes(&again), vec![1, 1]);
    assert_eq!(again[0].uuid, all[0].uuid);
    assert_eq!(again[1].uuid, all[1].uuid);
}

#[test]
fn changing_zoom_discards_every_cluster_and_frees_every_marker() {
    let g = geometry();
    let mut engine = ClusteringEngine::new();
    engine.add_markers(&vec![point(43.0, -79.0), point(43.0, -79.0), point(41.0, -76.0)]);
    let at_eight = engine.cluster_markers_in_bounds(&viewport(), 8, &g).unwrap();
    assert_eq!(sizes(&at_eight), vec![2, 1]);

    let at_two = engine.cluster_markers_in_bounds(&viewport(), 2, &g).unwrap();
    assert_eq!(sizes(&at_two), vec![3]);
    assert_eq!(engine.zoom(), Some(2));
    assert_eq!(engine.cluster_count(), 1);
    for old in &at_eight {
        for new in &at_two {
            assert_ne!(old.uuid, new.uuid);
            assert_ne!(old.uuid.serial, new.uuid.serial);
        }
    }

    let back = engine.cluster_markers_in_bounds(&viewport(), 8, &g).unwrap();
    assert_eq!(sizes(&back), vec![2, 1]);
    for old in at_eight.iter().chain(at_two.iter()) {
        for new in &back {
            assert_ne!(old.uuid, new.uuid);
        }
    }
}

#[test]
fn markers_outside_the_widened_viewport_wait() {
    let g = geometry();
    let mut engine = ClusteringEngine::new();
    engine.add_markers(&vec![point(43.0, -79.0), point(10.0, 10.0), point(45.05, -79.0)]);
    let seen = engine.cluster_markers_in_bounds(&viewport(), 8, &g).unwrap();
    let total: u32 = seen.iter().map(|c| c.size).sum();
    assert_eq!(total, 2);
    let wide = Bounds { north: num(50.0), east: num(20.0), south: num(0.0), west: num(-90.0) };
    let rest = engine.cluster_markers_in_bounds(&wide, 8, &g).unwrap();
    assert_eq!(sizes(&rest), vec![1]);
    let total: u32 = engine.clusters().iter().map(|c| c.size).sum();
    assert_eq!(total, 3);
}

#[test]
fn clear_forgets_markers_clusters_and_zoom_but_not_the_settings() {
    let g = geometry();
    let mut engine = ClusteringEngine::new();
    engine.configure(OptionalConfig { log_time: Some(true), ..OptionalConfig::default() });
    engine.add_markers(&vec![point(43.0, -79.0); 3]);
    engine.cluster_markers_in_bounds(&viewport(), 8, &g).unwrap();
    engine.clear();
    assert_eq!(engine.marker_count(), 0);
    assert_eq!(engine.cluster_count(), 0);
    assert_eq!(engine.zoom(), None);
    assert!(engine.config().log_time);
    let nothing = engine.cluster_markers_in_bounds(&viewport(), 8, &g).unwrap();
    assert!(nothing.is_empty());
}

#[test]
fn the_engine_refuses_zoom_thirty_and_stays_as_it_was() {
    let g = geometry();
    let mut engine = ClusteringEngine::new();
    engine.add_markers(&vec![point(43.0, -79.0); 3]);
    engine.cluster_markers_in_bounds(&viewport(), 8, &g).unwrap();
    let refused = engine.cluster_markers_in_bounds(&viewport(), 30, &g);
    assert_eq!(refused.err(), Some(UsageError::ZoomOutOfRange));
    assert_eq!(engine.zoom(), Some(8));
    assert_eq!(sizes(&engine.clusters()), vec![3]);
    let idle = engine.cluster_markers_in_bounds(&viewport(), 8, &g).unwrap();
    assert!(idle.is_empty());
}

#[test]
fn averaging_moves_the_center_of_an_engine_cluster() {
    let g = geometry();
    let mut engine = ClusteringEngine::new();
    engine.configure(OptionalConfig { average_center: Some(true), ..OptionalConfig::default() });
    engine.add_markers(&vec![point(43.0, -79.0), point(43.2, -78.8)]);
    let clusters = engine.cluster_markers_in_bounds(&viewport(), 8, &g).unwrap();
    assert_eq!(sizes(&clusters), vec![2]);
    assert_eq!(float(clusters[0].center.lat), (43.0 + 43.2) / 2.0);
    assert_eq!(float(clusters[0].center.lng), (-79.0 + -78.8) / 2.0);
}

#[test]
fn added_markers_arrive_free_and_in_order() {
    let g = geometry();
    let mut engine = ClusteringEngine::new();
    engine.add_markers(&vec![point(43.0, -79.0), point(10.0, 10.0)]);
    engine.add_markers(&vec![point(44.0, -78.0)]);
    let markers = engine.markers();
    let places: Vec<Marker> = markers.iter().map(|m| m.center()).collect();
    assert_eq!(places, vec![point(43.0, -79.0), point(10.0, 10.0), point(44.0, -78.0)]);
    assert!(markers.iter().all(|m| !m.is_added));
    assert_eq!(engine.zoom(), None);

    engine.cluster_markers_in_bounds(&viewport(), 8, &g).unwrap();
    let flags: Vec<bool> = engine.markers().iter().map(|m| m.is_added).collect();
    assert_eq!(flags, vec![true, false, true]);
    let consumed = flags.iter().filter(|f| **f).count() as u32;
    let total: u32 = engine.clusters().iter().map(|c| c.size).sum();
    assert_eq!(total, consumed);
}

#[test]
fn every_stored_marker_has_an_identity_of_its_own() {
    let mut engine = ClusteringEngine::new();
    engine.add_markers(&vec![point(43.0, -79.0); 3]);
    engine.add_markers(&vec![point(43.0, -79.0); 2]);
    engine.add_markers(&Vec::new());
    let markers = engine.markers();
    assert_eq!(markers.len(), 5);
    for i in 0..markers.len() {
        for j in 0..markers.len() {
            assert_eq!(markers[i] == markers[j], i == j);
            assert_eq!(markers[i].uuid.serial == markers[j].uuid.serial, i == j);
        }
    }
}
