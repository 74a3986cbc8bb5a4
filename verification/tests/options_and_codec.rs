use supercluster::builder::SuperclusterBuilder;
use supercluster::fixed::{COORD_HALF, COORD_ONE};
use supercluster::range::DataRange;
use supercluster::store::StoreRow;
use supercluster::supercluster::{
    convert_longitude_to_spherical_mercator, convert_spherical_mercator_to_longitude, get_cluster,
    get_cluster_metadata, CoordinateSystem, Supercluster,
};

#[test]
fn test_supercluster_builder_default() {
    let options = SuperclusterBuilder::default().build();

    assert_eq!(options.min_zoom, 0);
    assert_eq!(options.max_zoom, 16);
    assert_eq!(options.min_points, 2);
    assert_eq!(options.radius, 40);
    assert_eq!(options.extent, 512);
    assert_eq!(options.node_size, 64);
    assert_eq!(options.coordinate_system, CoordinateSystem::LatLng);
}

#[test]
fn test_supercluster_builder() {
    let options = SuperclusterBuilder::new()
        .min_zoom(1)
        .max_zoom(10)
        .min_points(5)
        .radius(50)
        .extent(1024)
        .node_size(128)
        .coordinate_system(CoordinateSystem::LatLng)
        .build();

    assert_eq!(options.min_zoom, 1);
    assert_eq!(options.max_zoom, 10);
    assert_eq!(options.min_points, 5);
    assert_eq!(options.radius, 50);
    assert_eq!(options.extent, 1024);
    assert_eq!(options.node_size, 128);
    assert_eq!(options.coordinate_system, CoordinateSystem::LatLng);
}

#[test]
fn test_builder() {
    let options = Supercluster::builder().build();
    let supercluster = Supercluster::new(options);

    assert_eq!(supercluster.options.min_zoom, 0);
    assert_eq!(supercluster.options.max_zoom, 16);
    assert_eq!(supercluster.options.radius, 40);
    assert_eq!(supercluster.options.extent, 512);
    assert_eq!(supercluster.options.node_size, 64);
    assert_eq!(supercluster.options.min_points, 2);
    assert_eq!(supercluster.options.coordinate_system, CoordinateSystem::LatLng);
}

#[test]
fn test_limit_zoom() {
    let supercluster = Supercluster::new(Supercluster::builder().build());

    assert_eq!(supercluster.limit_zoom(5), 5);
}

#[test]
fn test_get_origin_id() {
    let supercluster = Supercluster::new(Supercluster::builder().build());

    assert_eq!(supercluster.get_origin_id(100), 3);
}

#[test]
fn test_get_origin_zoom() {
    let supercluster = Supercluster::new(Supercluster::builder().build());

    assert_eq!(supercluster.get_origin_zoom(100), 4);
}

#[test]
fn test_data_range_default() {
    let data_range = DataRange::default();

    assert_eq!(data_range.min_x, 0);
    assert_eq!(data_range.min_y, 0);
    assert_eq!(data_range.max_x, COORD_ONE);
    assert_eq!(data_range.max_y, COORD_ONE);
}

#[test]
fn test_data_range() {
    let unit: i64 = COORD_ONE;
    let data_range = DataRange {
        min_x: -10 * unit,
        max_x: 100 * unit,
        min_y: -20 * unit,
        max_y: 50 * unit,
        ..Default::default()
    };

    assert_eq!(data_range.normalize(-20 * unit), 0);
    assert_eq!(data_range.normalize(40 * unit), unit / 2);
    assert_eq!(data_range.normalize(100 * unit), unit);

    assert_eq!(data_range.denormalize(0), -20 * unit);
    assert_eq!(data_range.denormalize(unit / 2), 40 * unit);
    assert_eq!(data_range.denormalize(unit), 100 * unit);
}

#[test]
fn test_data_range_round_trip() {
    let unit: i64 = COORD_ONE;
    let data_range = DataRange {
        min_x: -10 * unit,
        max_x: 100 * unit,
        min_y: -20 * unit,
        max_y: 50 * unit,
        ..Default::default()
    };

    for n in [0i64, 1, unit / 3, unit / 2, unit - 1, unit] {
        let back = data_range.normalize(data_range.denormalize(n));
        assert!(back <= n);
        // the scale spans 120 units, far wider than one fixed-point step,
        // so the round trip loses at most a single step
        assert!(n - back <= 1);
    }
}

#[test]
fn test_convert_longitude_to_spherical_mercator() {
    let unit: i64 = COORD_ONE;
    assert_eq!(convert_longitude_to_spherical_mercator(0), COORD_HALF);
    assert_eq!(convert_longitude_to_spherical_mercator(180 * unit), unit);
    assert_eq!(convert_longitude_to_spherical_mercator(-180 * unit), 0);
    assert_eq!(convert_longitude_to_spherical_mercator(90 * unit), 3 * unit / 4);
    assert_eq!(convert_longitude_to_spherical_mercator(-90 * unit), unit / 4);
}

#[test]
fn test_convert_spherical_mercator_to_longitude() {
    let unit: i64 = COORD_ONE;
    assert_eq!(convert_spherical_mercator_to_longitude(COORD_HALF), 0);
    assert_eq!(convert_spherical_mercator_to_longitude(unit), 180 * unit);
    assert_eq!(convert_spherical_mercator_to_longitude(0), -180 * unit);
    assert_eq!(convert_spherical_mercator_to_longitude(3 * unit / 4), 90 * unit);
    assert_eq!(convert_spherical_mercator_to_longitude(unit / 4), -90 * unit);
}

#[test]
fn test_longitude_round_trip() {
    for nx in [0i64, 1, 12345, COORD_HALF, COORD_ONE - 1, COORD_ONE] {
        let lng = convert_spherical_mercator_to_longitude(nx);
        assert_eq!(convert_longitude_to_spherical_mercator(lng), nx);
    }
}

#[test]
fn test_get_cluster_without_metadata() {
    let row = StoreRow {
        x: 0,
        y: 0,
        zoom_processed: 0,
        id_or_index: 0,
        parent_id: None,
        weight: 3,
    };

    let result = get_cluster(&row);

    assert_eq!(result.metadata.cluster, true);
    assert_eq!(result.metadata.cluster_id, 0);
    assert_eq!(result.metadata.point_count, 3);
    assert_eq!(result.metadata.point_count_abbreviated, b"3".to_vec());
    // the position denormalizes to the north-west corner of the world
    assert_eq!(convert_spherical_mercator_to_longitude(result.x), -180 * COORD_ONE);
}

#[test]
fn test_get_cluster_metadata_with_metadata() {
    let row = StoreRow {
        x: 0,
        y: 0,
        zoom_processed: 0,
        id_or_index: 0,
        parent_id: None,
        weight: 10000,
    };

    let result = get_cluster_metadata(&row);

    assert_eq!(result.cluster, true);
    assert_eq!(result.cluster_id, 0);
    assert_eq!(result.point_count, 10000);
    assert_eq!(result.point_count_abbreviated, b"10k".to_vec());
}

#[test]
fn test_get_cluster_metadata_without_metadata() {
    let row = StoreRow {
        x: 0,
        y: 0,
        zoom_processed: 0,
        id_or_index: 0,
        parent_id: None,
        weight: 1000,
    };

    let result = get_cluster_metadata(&row);

    assert_eq!(result.cluster, true);
    assert_eq!(result.cluster_id, 0);
    assert_eq!(result.point_count, 1000);
    assert_eq!(result.point_count_abbreviated, b"1k".to_vec());
}

#[test]
fn test_abbreviated_counts() {
    let mk = |weight: u64| StoreRow {
        x: 0,
        y: 0,
        zoom_processed: 0,
        id_or_index: 0,
        parent_id: None,
        weight,
    };

    assert_eq!(get_cluster_metadata(&mk(999)).point_count_abbreviated, b"999".to_vec());
    assert_eq!(get_cluster_metadata(&mk(1234)).point_count_abbreviated, b"1.2k".to_vec());
    assert_eq!(get_cluster_metadata(&mk(1950)).point_count_abbreviated, b"2k".to_vec());
    assert_eq!(get_cluster_metadata(&mk(10500)).point_count_abbreviated, b"10.5k".to_vec());
    assert_eq!(get_cluster_metadata(&mk(10050)).point_count_abbreviated, b"10.05k".to_vec());
}
