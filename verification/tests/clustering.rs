use marker_clusterer::bounds::{calculate_extended_bounds, Bounds};
use marker_clusterer::cluster::Cluster;
use marker_clusterer::clustering::{
    add_to_closest_cluster, cluster_markers, distance_between_markers, measure_clusters,
};
use marker_clusterer::config::Config;
use marker_clusterer::double::Double;
use marker_clusterer::geometry::{Geometry, UsageError};
use marker_clusterer::identity::IdentitySource;
use marker_clusterer::marker::{Marker, UniqueMarker};
use marker_clusterer::nearest::{closest_cluster, nearest_cluster, DISTANCE_LIMIT};

type Distance = fn(Marker, Marker) -> Double;
type Extend = fn(Bounds, usize, Double) -> Bounds;
type Mean = fn(Double, u32, Double) -> Double;

fn num(value: f64) -> Double {
    Double::from_bits(value.to_bits())
}

fn float(value: Double) -> f64 {
    f64::from_bits(value.to_bits())
}

fn haversine(first: Marker, second: Marker) -> Double {
    let earth_radius_kilometer = 6371.0_f64;
    let (lat1, lng1, lat2, lng2) = (float(first.lat), float(first.lng), float(second.lat), float(second.lng));
    let delta_latitude = (lat1 - lat2).to_radians();
    let delta_longitude = (lng1 - lng2).to_radians();
    let central_angle_inner = (delta_latitude / 2.0).sin().powi(2)
        + lat1.to_radians().cos() * lat2.to_radians().cos() * (delta_longitude / 2.0).sin().powi(2);
    let central_angle = 2.0 * central_angle_inner.sqrt().asin();
    num(earth_radius_kilometer * central_angle)
}

fn extend(bounds: Bounds, zoom: usize, grid_size: Double) -> Bounds {
    let grid_size = float(grid_size);
    let mut north_east_pix =
        googleprojection::from_ll_to_subpixel(&(float(bounds.east), float(bounds.north)), zoom)
            .unwrap();
    let mut south_west_pix =
        googleprojection::from_ll_to_subpixel(&(float(bounds.west), float(bounds.south)), zoom)
            .unwrap();
    north_east_pix.0 += grid_size;
    north_east_pix.1 -= grid_size;
    south_west_pix.0 -= grid_size;
    south_west_pix.1 += grid_size;
    let north_east = googleprojection::from_pixel_to_ll(&north_east_pix, zoom).unwrap();
    let south_west = googleprojection::from_pixel_to_ll(&south_west_pix, zoom).unwrap();
    Bounds {
        north: num(north_east.1),
        east: num(north_east.0),
        south: num(south_west.1),
        west: num(south_west.0),
    }
}

fn mean(center: Double, count: u32, coordinate: Double) -> Double {
    num((float(center) * f64::from(count) + float(coordinate)) / f64::from(count + 1))
}

fn geometry() -> Geometry<Distance, Extend, Mean> {
    Geometry::new(haversine as Distance, extend as Extend, mean as Mean)
}

fn point(lat: f64, lng: f64) -> Marker {
    Marker { lat: num(lat), lng: num(lng) }
}

fn sample_point() -> Marker {
    point(43.0, -79.0)
}

const DEFAULT_ZOOM: usize = 8;

fn default_bounds() -> Bounds {
    Bounds { north: num(45.0), east: num(-75.0), south: num(40.0), west: num(-81.0) }
}

fn unique(points: &[Marker], ids: &mut IdentitySource) -> Vec<UniqueMarker> {
    let mut markers = Vec::new();
    for p in points {
        markers.push(UniqueMarker::from(p, ids));
    }
    markers
}

#[test]
fn clusters_include_all_markers() {
    let mut ids = IdentitySource::new();
    let mut sample_markers = unique(&vec![point(43.0, -79.0); 5], &mut ids);

    let clustered = &mut Vec::new();
    cluster_markers(
        clustered,
        &mut sample_markers,
        &default_bounds(),
        DEFAULT_ZOOM,
        &Config::default(),
        &mut ids,
        &geometry(),
    )
    .unwrap();
    let cluster_point_count = clustered.iter().fold(0, |sum, x: &Cluster| sum + x.size);
    assert_eq!(sample_markers.len() as u32, cluster_point_count);
}

#[test]
fn add_some_markers_to_a_cluster() {
    let mut ids = IdentitySource::new();
    let mut sample_clusters: Vec<Cluster> = Vec::new();
    let first = UniqueMarker::from(&sample_point(), &mut ids);
    let second = UniqueMarker::from(&sample_point(), &mut ids);

    add_to_closest_cluster(
        &mut sample_clusters,
        &first,
        DEFAULT_ZOOM,
        false,
        num(60.0),
        &mut ids,
        &geometry(),
    )
    .unwrap();

    assert_eq!(sample_clusters.len(), 1);
    assert_eq!(sample_clusters[0].size, 1);
    assert!((float(sample_clusters[0].center.lat) - float(sample_point().lat)).abs() < f64::EPSILON);
    assert!((float(sample_clusters[0].center.lng) - float(sample_point().lng)).abs() < f64::EPSILON);

    add_to_closest_cluster(
        &mut sample_clusters,
        &second,
        DEFAULT_ZOOM,
        false,
        num(60.0),
        &mut ids,
        &geometry(),
    )
    .unwrap();

    assert_eq!(sample_clusters.len(), 1);
    assert_eq!(sample_clusters[0].size, 2);
    assert!((float(sample_clusters[0].center.lat) - float(sample_point().lat)).abs() < f64::EPSILON);
    assert!((float(sample_clusters[0].center.lng) - float(sample_point().lng)).abs() < f64::EPSILON);
}

#[test]
fn test_1000_markers() {
    let mut ids = IdentitySource::new();
    let mut sample_markers = unique(&vec![point(43.0, -79.0); 1000], &mut ids);

    let clustered = &mut Vec::new();
    cluster_markers(
        clustered,
        &mut sample_markers,
        &default_bounds(),
        DEFAULT_ZOOM,
        &Config::default(),
        &mut ids,
        &geometry(),
    )
    .unwrap();
    assert_eq!(clustered.len(), 1);
    assert_eq!(clustered.get(0).unwrap().size, 1000);
}

#[test]
fn bounds_get_extended() {
    let bounds = Bounds {
        north: num(43.6532),
        east: num(-79.3832),
        south: num(43.6532),
        west: num(-79.3832),
    };

    let extended_bounds =
        calculate_extended_bounds(&bounds, DEFAULT_ZOOM, num(60.0), &geometry()).unwrap();

    assert!(float(bounds.north) < float(extended_bounds.north));
    assert!(float(bounds.east) < float(extended_bounds.east));
    assert!(float(bounds.south) > float(extended_bounds.south));
    assert!(float(bounds.west) > float(extended_bounds.west));
    assert!(bounds.north.lt(&extended_bounds.north));
    assert!(bounds.east.lt(&extended_bounds.east));
    assert!(extended_bounds.south.lt(&bounds.south));
    assert!(extended_bounds.west.lt(&bounds.west));
}

#[test]
fn ten_thousand_identical_markers_make_one_cluster() {
    let mut ids = IdentitySource::new();
    let mut markers = unique(&vec![point(43.0, -79.0); 10000], &mut ids);
    let mut clusters: Vec<Cluster> = Vec::new();
    let changed = cluster_markers(
        &mut clusters,
        &mut markers,
        &default_bounds(),
        DEFAULT_ZOOM,
        &Config::default(),
        &mut ids,
        &geometry(),
    )
    .unwrap();
    assert_eq!(clusters.len(), 1);
    assert_eq!(clusters[0].size, 10000);
    assert_eq!(clusters[0].markers.len(), 10000);
    assert_eq!(changed.len(), 1);
    assert!(changed.contains(&clusters[0].uuid.serial));
    assert!(markers.iter().all(|m| m.is_added));
}

#[test]
fn five_identical_markers_make_one_cluster_of_five() {
    let mut ids = IdentitySource::new();
    let mut markers = unique(&vec![point(43.0, -79.0); 5], &mut ids);
    let mut clusters: Vec<Cluster> = Vec::new();
    cluster_markers(
        &mut clusters,
        &mut markers,
        &default_bounds(),
        DEFAULT_ZOOM,
        &Config::default(),
        &mut ids,
        &geometry(),
    )
    .unwrap();
    assert_eq!(clusters.len(), 1);
    assert_eq!(clusters[0].size, 5);
    let ids_of_members: Vec<u64> = clusters[0].markers.iter().map(|m| m.uuid.serial).collect();
    assert_eq!(ids_of_members, vec![0, 1, 2, 3, 4]);
}

#[test]
fn markers_outside_the_bounds_are_not_counted() {
    let mut ids = IdentitySource::new();
    let points = vec![
        point(43.0, -79.0),
        point(10.0, 10.0),
        point(44.0, -78.0),
        point(60.0, -79.0),
        point(43.0, -79.0),
    ];
    let mut markers = unique(&points, &mut ids);
    let mut clusters: Vec<Cluster> = Vec::new();
    let bounds = default_bounds();
    cluster_markers(
        &mut clusters,
        &mut markers,
        &bounds,
        DEFAULT_ZOOM,
        &Config::default(),
        &mut ids,
        &geometry(),
    )
    .unwrap();
    let inside = markers.iter().filter(|m| bounds.contains(m)).count();
    let total: u32 = clusters.iter().map(|c| c.size).sum();
    assert_eq!(inside, 3);
    assert_eq!(total, 3);
    let flags: Vec<bool> = markers.iter().map(|m| m.is_added).collect();
    assert_eq!(flags, vec![true, false, true, false, true]);
}

#[test]
fn a_marker_on_the_edge_is_outside() {
    let mut ids = IdentitySource::new();
    let bounds = default_bounds();
    let on_north = UniqueMarker::from(&point(45.0, -79.0), &mut ids);
    let on_east = UniqueMarker::from(&point(43.0, -75.0), &mut ids);
    let on_south = UniqueMarker::from(&point(40.0, -79.0), &mut ids);
    let on_west = UniqueMarker::from(&point(43.0, -81.0), &mut ids);
    let inside = UniqueMarker::from(&point(43.0, -79.0), &mut ids);
    let nowhere = UniqueMarker::from(&point(f64::NAN, -79.0), &mut ids);
    assert!(!bounds.contains(&on_north));
    assert!(!bounds.contains(&on_east));
    assert!(!bounds.contains(&on_south));
    assert!(!bounds.contains(&on_west));
    assert!(bounds.contains(&inside));
    assert!(!bounds.contains(&nowhere));
}

#[test]
fn from_point_is_the_extended_point() {
    let g = geometry();
    let around = Bounds::from_point(num(43.6532), num(-79.3832), 8, num(60.0), &g).unwrap();
    let at = Bounds {
        north: num(43.6532),
        east: num(-79.3832),
        south: num(43.6532),
        west: num(-79.3832),
    };
    assert_eq!(around, calculate_extended_bounds(&at, 8, num(60.0), &g).unwrap());
    assert!((float(around.north) - 43.891195023324286).abs() < 1e-9);
    assert!((float(around.east) - -79.05361015624999).abs() < 1e-9);
}

#[test]
fn zoom_thirty_is_refused() {
    let g = geometry();
    let mut ids = IdentitySource::new();
    assert_eq!(
        calculate_extended_bounds(&default_bounds(), 30, num(60.0), &g),
        Err(UsageError::ZoomOutOfRange)
    );
    assert!(calculate_extended_bounds(&default_bounds(), 29, num(60.0), &g).is_ok());
    assert_eq!(
        Bounds::from_point(num(43.0), num(-79.0), 31, num(60.0), &g),
        Err(UsageError::ZoomOutOfRange)
    );

    let marker = UniqueMarker::from(&sample_point(), &mut ids);
    let mut clusters: Vec<Cluster> = Vec::new();
    let refused = add_to_closest_cluster(&mut clusters, &marker, 30, false, num(60.0), &mut ids, &g);
    assert_eq!(refused, Err(UsageError::ZoomOutOfRange));
    assert!(clusters.is_empty());

    let mut markers = vec![marker];
    let refused = cluster_markers(
        &mut clusters,
        &mut markers,
        &default_bounds(),
        30,
        &Config::default(),
        &mut ids,
        &g,
    );
    assert_eq!(refused.err(), Some(UsageError::ZoomOutOfRange));
    assert!(clusters.is_empty());
    assert!(!markers[0].is_added);
    assert_eq!(ids.remaining(), u64::MAX - 1);
}

#[test]
fn the_nearest_distance_in_reach_wins_and_the_first_of_equals() {
    let d = |values: &[f64]| values.iter().map(|v| num(*v)).collect::<Vec<Double>>();
    assert_eq!(nearest_cluster(&d(&[])), None);
    assert_eq!(nearest_cluster(&d(&[5.0, 3.0, 9.0])), Some(1));
    assert_eq!(nearest_cluster(&d(&[3.0, 3.0, 3.0])), Some(0));
    assert_eq!(nearest_cluster(&d(&[7.0, 2.0, 2.0, 8.0])), Some(1));
    assert_eq!(nearest_cluster(&d(&[40000.0, 50000.0])), None);
    assert_eq!(nearest_cluster(&d(&[40000.0, 39999.0])), Some(1));
    assert_eq!(nearest_cluster(&d(&[f64::NAN, 12.0, f64::NAN])), Some(1));
    assert_eq!(nearest_cluster(&d(&[f64::NAN, f64::INFINITY])), None);
    assert_eq!(nearest_cluster(&d(&[0.0, -0.0])), Some(0));
    assert_eq!(DISTANCE_LIMIT, 40000.0_f64.to_bits());
}

#[test]
fn a_nearest_cluster_that_rejects_blocks_a_farther_one_that_accepts() {
    let mut ids = IdentitySource::new();
    let marker = UniqueMarker::from(&point(43.0, -79.0), &mut ids);
    let narrow = Bounds { north: num(42.0), east: num(-80.0), south: num(41.0), west: num(-81.0) };
    let wide = Bounds { north: num(50.0), east: num(-70.0), south: num(40.0), west: num(-90.0) };
    let near = Cluster::new(ids.issue(), &UniqueMarker::from(&point(42.9, -79.0), &mut ids), narrow);
    let far = Cluster::new(ids.issue(), &UniqueMarker::from(&point(45.0, -79.0), &mut ids), wide);
    let clusters = vec![near, far];
    let distances = measure_clusters(&clusters, &marker, &geometry());
    assert_eq!(distances.len(), 2);
    assert!(distances[0].lt(&distances[1]));
    assert_eq!(nearest_cluster(&distances), Some(0));
    assert_eq!(closest_cluster(&clusters, &marker, &distances), None);

    let mut clusters = clusters;
    let holder =
        add_to_closest_cluster(&mut clusters, &marker, 8, false, num(60.0), &mut ids, &geometry())
            .unwrap();
    assert_eq!(clusters.len(), 3);
    assert_eq!(clusters[0].size, 1);
    assert_eq!(clusters[1].size, 1);
    assert_eq!(clusters[2].uuid, holder);
    assert_eq!(clusters[2].markers[0].uuid, marker.uuid);

    let swapped = vec![clusters[1].clone(), clusters[0].clone()];
    let distances = measure_clusters(&swapped, &marker, &geometry());
    assert_eq!(nearest_cluster(&distances), Some(1));
    assert_eq!(closest_cluster(&swapped, &marker, &distances), None);
    let only_far = vec![clusters[1].clone()];
    let distances = measure_clusters(&only_far, &marker, &geometry());
    assert_eq!(closest_cluster(&only_far, &marker, &distances), Some(0));
}

#[test]
fn the_distance_function_is_asked_with_center_first() {
    let seen: Distance = |from, to| num(float(from.lat) * 1000.0 + float(to.lat));
    let g = Geometry::new(seen, extend as Extend, mean as Mean);
    let mut ids = IdentitySource::new();
    let marker = UniqueMarker::from(&point(2.0, 0.0), &mut ids);
    let km = distance_between_markers(&point(7.0, 0.0), &marker, &g);
    assert_eq!(float(km), 7002.0);
}

#[test]
fn without_averaging_a_cluster_stays_where_it_was_founded() {
    let g = geometry();
    let mut ids = IdentitySource::new();
    let first = UniqueMarker::from(&point(43.0, -79.0), &mut ids);
    let second = UniqueMarker::from(&point(43.1, -78.9), &mut ids);
    let mut clusters: Vec<Cluster> = Vec::new();
    let a = add_to_closest_cluster(&mut clusters, &first, 8, false, num(60.0), &mut ids, &g).unwrap();
    let founded_bounds = clusters[0].bounds;
    let b = add_to_closest_cluster(&mut clusters, &second, 8, false, num(60.0), &mut ids, &g).unwrap();
    assert_eq!(a, b);
    assert_eq!(clusters.len(), 1);
    assert_eq!(clusters[0].size, 2);
    assert_eq!(clusters[0].center, point(43.0, -79.0));
    assert_eq!(clusters[0].bounds, founded_bounds);
    assert_eq!(founded_bounds, Bounds::from_point(num(43.0), num(-79.0), 8, num(60.0), &g).unwrap());
}

#[test]
fn with_averaging_the_center_is_the_mean_of_the_members() {
    let g = geometry();
    let mut ids = IdentitySource::new();
    let first = UniqueMarker::from(&point(43.0, -79.0), &mut ids);
    let second = UniqueMarker::from(&point(43.2, -78.8), &mut ids);
    let third = UniqueMarker::from(&point(43.1, -78.6), &mut ids);
    let mut cluster =
        Cluster::new(ids.issue(), &first, Bounds::from_point(first.lat, first.lng, 8, num(60.0), &g).unwrap());
    cluster.add_marker(&second, 8, true, num(60.0), &g).unwrap();
    assert_eq!(cluster.size, 2);
    assert_eq!(float(cluster.center.lat), (43.0 * 1.0 + 43.2) / 2.0);
    assert_eq!(float(cluster.center.lng), (-79.0 * 1.0 + -78.8) / 2.0);
    assert_eq!(
        cluster.bounds,
        Bounds::from_point(cluster.center.lat, cluster.center.lng, 8, num(60.0), &g).unwrap()
    );
    let center = cluster.center;
    cluster.add_marker(&third, 8, true, num(60.0), &g).unwrap();
    assert_eq!(cluster.size, 3);
    assert_eq!(float(cluster.center.lat), (float(center.lat) * 2.0 + 43.1) / 3.0);
    assert_eq!(float(cluster.center.lng), (float(center.lng) * 2.0 + -78.6) / 3.0);
    assert!((float(cluster.center.lat) - 43.1).abs() < 1e-12);
    assert_eq!(cluster.markers.len(), 3);
    assert_eq!(cluster.markers[2].uuid, third.uuid);

    let mut fixed = cluster.clone();
    let bounds = fixed.bounds;
    fixed.add_marker(&first, 8, false, num(60.0), &g).unwrap();
    assert_eq!(fixed.size, 4);
    assert_eq!(fixed.center, cluster.center);
    assert_eq!(fixed.bounds, bounds);
    assert_eq!(fixed.add_marker(&first, 30, true, num(60.0), &g), Err(UsageError::ZoomOutOfRange));
    assert_eq!(fixed.size, 4);
}

#[test]
fn absorb_moves_the_cluster_only_where_told() {
    let mut ids = IdentitySource::new();
    let first = UniqueMarker::from(&point(1.0, 2.0), &mut ids);
    let second = UniqueMarker::from(&point(3.0, 4.0), &mut ids);
    let bounds = Bounds { north: num(2.0), east: num(3.0), south: num(0.0), west: num(1.0) };
    let mut cluster = Cluster::new(ids.issue(), &first, bounds);
    assert_eq!(cluster.size, 1);
    assert_eq!(cluster.center, point(1.0, 2.0));
    cluster.absorb(&second, None);
    assert_eq!(cluster.size, 2);
    assert_eq!(cluster.center, point(1.0, 2.0));
    assert_eq!(cluster.bounds, bounds);
    let moved = Bounds { north: num(3.0), east: num(4.0), south: num(1.0), west: num(2.0) };
    cluster.absorb(&first, Some((point(2.0, 3.0), moved)));
    assert_eq!(cluster.size, 3);
    assert_eq!(cluster.center, point(2.0, 3.0));
    assert_eq!(cluster.bounds, moved);
    let members: Vec<u64> = cluster.markers.iter().map(|m| m.uuid.serial).collect();
    assert_eq!(members, vec![0, 1, 0]);
}

#[test]
fn a_pass_records_every_cluster_it_changed_whatever_the_settings() {
    let g = geometry();
    let mut ids = IdentitySource::new();
    let mut markers = unique(&[point(43.0, -79.0), point(41.0, -76.0)], &mut ids);
    let mut clusters: Vec<Cluster> = Vec::new();
    let quiet = Config { only_return_modified_clusters: false, ..Config::default() };
    let changed =
        cluster_markers(&mut clusters, &mut markers, &default_bounds(), 10, &quiet, &mut ids, &g).unwrap();
    assert_eq!(clusters.len(), 2);
    assert_eq!(changed.len(), 2);
    assert!(changed.contains(&clusters[0].uuid.serial));
    assert!(changed.contains(&clusters[1].uuid.serial));

    let mut again = unique(&[point(43.0, -79.0)], &mut ids);
    let changed =
        cluster_markers(&mut clusters, &mut again, &default_bounds(), 10, &quiet, &mut ids, &g).unwrap();
    assert_eq!(clusters.len(), 2);
    assert_eq!(changed.len(), 1);
    assert!(changed.contains(&clusters[0].uuid.serial));
    assert!(!changed.contains(&clusters[1].uuid.serial));

    let mut more = unique(&[point(41.0, -76.0)], &mut ids);
    let changed = cluster_markers(
        &mut clusters,
        &mut more,
        &default_bounds(),
        10,
        &Config::default(),
        &mut ids,
        &g,
    )
    .unwrap();
    assert_eq!(clusters.len(), 2);
    assert_eq!(changed.len(), 1);
    assert!(changed.contains(&clusters[1].uuid.serial));
    assert_eq!(clusters[1].size, 2);

    let changed = cluster_markers(
        &mut clusters,
        &mut more,
        &default_bounds(),
        10,
        &Config::default(),
        &mut ids,
        &g,
    )
    .unwrap();
    assert!(changed.is_empty());
    assert_eq!(clusters[1].size, 2);
}

#[test]
fn extending_by_nothing_gives_the_bounds_back() {
    let g = geometry();
    let bounds = Bounds { north: num(45.0), east: num(-75.0), south: num(40.0), west: num(-81.0) };
    for zoom in [0usize, 3, 8, 15, 29] {
        let same = calculate_extended_bounds(&bounds, zoom, num(0.0), &g).unwrap();
        assert!((float(same.north) - 45.0).abs() < 1e-9);
        assert!((float(same.east) - -75.0).abs() < 1e-9);
        assert!((float(same.south) - 40.0).abs() < 1e-9);
        assert!((float(same.west) - -81.0).abs() < 1e-9);
    }
}

#[test]
fn where_the_footprint_leaves_its_own_point_out_every_marker_founds_a_cluster() {
    let g = geometry();
    let mut ids = IdentitySource::new();
    let at = Bounds { north: num(89.9), east: num(0.0), south: num(89.9), west: num(0.0) };
    let footprint = calculate_extended_bounds(&at, 8, num(60.0), &g).unwrap();
    assert!(float(footprint.north) < 89.9);

    let mut markers = unique(&vec![point(89.9, 0.0); 3], &mut ids);
    assert!(!footprint.contains(&markers[0]));
    let everywhere = Bounds { north: num(90.0), east: num(180.0), south: num(-90.0), west: num(-180.0) };
    let mut clusters: Vec<Cluster> = Vec::new();
    cluster_markers(&mut clusters, &mut markers, &everywhere, 8, &Config::default(), &mut ids, &g)
        .unwrap();
    let sizes: Vec<u32> = clusters.iter().map(|c| c.size).collect();
    assert_eq!(sizes, vec![1, 1, 1]);
}

#[test]
fn without_averaging_a_cluster_takes_a_marker_in_at_any_zoom() {
    let g = geometry();
    let mut ids = IdentitySource::new();
    let first = UniqueMarker::from(&point(43.0, -79.0), &mut ids);
    let second = UniqueMarker::from(&point(43.0, -79.0), &mut ids);
    let bounds = Bounds::from_point(first.lat, first.lng, 8, num(60.0), &g).unwrap();
    let mut cluster = Cluster::new(ids.issue(), &first, bounds);
    assert_eq!(cluster.add_marker(&second, 30, false, num(60.0), &g), Ok(()));
    assert_eq!(cluster.add_marker(&second, usize::MAX, false, num(60.0), &g), Ok(()));
    assert_eq!(cluster.size, 3);
    assert_eq!(cluster.markers.len(), 3);
    assert_eq!(cluster.center, point(43.0, -79.0));
    assert_eq!(cluster.bounds, bounds);
    assert_eq!(cluster.add_marker(&second, 30, true, num(60.0), &g), Err(UsageError::ZoomOutOfRange));
    assert_eq!(cluster.size, 3);
    assert_eq!(cluster.add_marker(&second, 29, true, num(60.0), &g), Ok(()));
    assert_eq!(cluster.size, 4);
}

#[test]
fn a_zoom_that_cannot_be_projected_is_refused_only_where_something_is_projected() {
    let g = geometry();
    let mut ids = IdentitySource::new();
    let founder = UniqueMarker::from(&point(43.0, -79.0), &mut ids);
    let mut clusters: Vec<Cluster> = Vec::new();
    add_to_closest_cluster(&mut clusters, &founder, 8, false, num(60.0), &mut ids, &g).unwrap();
    let left = ids.remaining();

    let joiner = UniqueMarker::from(&point(43.0, -79.0), &mut ids);
    let holder = add_to_closest_cluster(&mut clusters, &joiner, 30, false, num(60.0), &mut ids, &g);
    assert_eq!(holder, Ok(clusters[0].uuid));
    assert_eq!(clusters.len(), 1);
    assert_eq!(clusters[0].size, 2);

    let averaged = add_to_closest_cluster(&mut clusters, &joiner, 30, true, num(60.0), &mut ids, &g);
    assert_eq!(averaged, Err(UsageError::ZoomOutOfRange));
    assert_eq!(clusters[0].size, 2);

    let stranger = UniqueMarker::from(&point(10.0, 10.0), &mut ids);
    let founded = add_to_closest_cluster(&mut clusters, &stranger, 30, false, num(60.0), &mut ids, &g);
    assert_eq!(founded, Err(UsageError::ZoomOutOfRange));
    assert_eq!(clusters.len(), 1);
    assert_eq!(clusters[0].size, 2);
    assert_eq!(ids.remaining(), left - 2);
}

#[test]
fn a_pass_that_finds_no_marker_changes_nothing_at_any_zoom() {
    let g = geometry();
    let mut ids = IdentitySource::new();
    let mut clusters: Vec<Cluster> = Vec::new();
    let mut markers = unique(&[point(43.0, -79.0), point(10.0, 10.0), point(45.0, -79.0)], &mut ids);
    cluster_markers(&mut clusters, &mut markers, &default_bounds(), 8, &Config::default(), &mut ids, &g)
        .unwrap();
    let flags_before: Vec<bool> = markers.iter().map(|m| m.is_added).collect();
    assert_eq!(flags_before, vec![true, false, false]);
    let left = ids.remaining();

    for zoom in [0usize, 8, 29, 30, 31, usize::MAX] {
        let changed = cluster_markers(
            &mut clusters,
            &mut markers,
            &default_bounds(),
            zoom,
            &Config::default(),
            &mut ids,
            &g,
        )
        .unwrap();
        assert!(changed.is_empty());
        assert_eq!(clusters.len(), 1);
        assert_eq!(clusters[0].size, 1);
        let flags: Vec<bool> = markers.iter().map(|m| m.is_added).collect();
        assert_eq!(flags, flags_before);
        assert_eq!(ids.remaining(), left);
    }
    let mut none: Vec<UniqueMarker> = Vec::new();
    let mut empty: Vec<Cluster> = Vec::new();
    let changed =
        cluster_markers(&mut empty, &mut none, &default_bounds(), 40, &Config::default(), &mut ids, &g)
            .unwrap();
    assert!(changed.is_empty());
    assert!(empty.is_empty());
}

#[test]
fn a_refused_pass_stops_before_the_first_marker_that_needs_a_projection() {
    let g = geometry();
    let mut ids = IdentitySource::new();
    let mut clusters: Vec<Cluster> = Vec::new();
    let mut first = unique(&[point(43.0, -79.0)], &mut ids);
    cluster_markers(&mut clusters, &mut first, &default_bounds(), 8, &Config::default(), &mut ids, &g)
        .unwrap();
    let left = ids.remaining();

    let mut markers = unique(
        &[point(43.0, -79.0), point(10.0, 10.0), point(41.0, -76.0), point(43.0, -79.0)],
        &mut ids,
    );
    let refused = cluster_markers(
        &mut clusters,
        &mut markers,
        &default_bounds(),
        30,
        &Config::default(),
        &mut ids,
        &g,
    );
    assert_eq!(refused.err(), Some(UsageError::ZoomOutOfRange));
    assert_eq!(clusters.len(), 1);
    assert_eq!(clusters[0].size, 2);
    let flags: Vec<bool> = markers.iter().map(|m| m.is_added).collect();
    assert_eq!(flags, vec![true, false, false, false]);
    assert_eq!(ids.remaining(), left - 4);

    let changed = cluster_markers(
        &mut clusters,
        &mut markers,
        &default_bounds(),
        8,
        &Config::default(),
        &mut ids,
        &g,
    )
    .unwrap();
    assert_eq!(changed.len(), 2);
    let sizes: Vec<u32> = clusters.iter().map(|c| c.size).collect();
    assert_eq!(sizes, vec![3, 1]);
}
