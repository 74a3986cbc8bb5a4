use supercluster::error::SuperclusterError;
use supercluster::fixed::COORD_ONE;
use supercluster::kdbush::KDBush;
use supercluster::range::DataRange;
use supercluster::store::StoreRow;
use supercluster::supercluster::{
    CoordinateSystem, FeatureData, InputPoint, Supercluster, TileContent,
};

#[test]
fn test_tile_single_cluster() {
    let to_nx = |lng: f64| -> i64 { ((lng / 360.0 + 0.5) * 4294967296.0).round() as i64 };
    let to_ny = |lat: f64| -> i64 {
        let sin = lat.to_radians().sin();
        let y = 0.5 - (0.25 * ((1.0 + sin) / (1.0 - sin)).ln()) / std::f64::consts::PI;
        (y.clamp(0.0, 1.0) * 4294967296.0).round() as i64
    };
    let options = Supercluster::builder()
        .radius(40)
        .extent(512)
        .min_points(2)
        .max_zoom(16)
        .coordinate_system(CoordinateSystem::LatLng)
        .build();
    let mut cluster = Supercluster::new(options);
    cluster
        .load(vec![
            Some(InputPoint { x: to_nx(-77.032), y: to_ny(38.913) }),
            Some(InputPoint { x: to_nx(-77.033), y: to_ny(38.913) }),
            Some(InputPoint { x: to_nx(-77.034), y: to_ny(38.913) }),
        ])
        .unwrap();

    let tile = cluster.get_tile(0, 0, 0).unwrap();

    assert_eq!(tile.features.len(), 1);
    match &tile.features[0].data {
        TileContent::Cluster(md) => {
            assert_eq!(md.point_count, 3);
            assert_eq!(md.point_count_abbreviated, b"3".to_vec());
        },
        TileContent::Point(_) => panic!("expected a cluster"),
    }
}

#[test]
fn test_tile_individual_points() {
    let to_nx = |lng: f64| -> i64 { ((lng / 360.0 + 0.5) * 4294967296.0).round() as i64 };
    let to_ny = |lat: f64| -> i64 {
        let sin = lat.to_radians().sin();
        let y = 0.5 - (0.25 * ((1.0 + sin) / (1.0 - sin)).ln()) / std::f64::consts::PI;
        (y.clamp(0.0, 1.0) * 4294967296.0).round() as i64
    };
    let options = Supercluster::builder()
        .radius(40)
        .extent(512)
        .min_points(5)
        .max_zoom(16)
        .coordinate_system(CoordinateSystem::LatLng)
        .build();
    let mut cluster = Supercluster::new(options);
    cluster
        .load(vec![
            Some(InputPoint { x: to_nx(-77.032), y: to_ny(38.913) }),
            Some(InputPoint { x: to_nx(-77.033), y: to_ny(38.913) }),
            Some(InputPoint { x: to_nx(-77.034), y: to_ny(38.913) }),
        ])
        .unwrap();

    let tile = cluster.get_tile(0, 0, 0).unwrap();

    assert_eq!(tile.features.len(), 3);
    for feature in &tile.features {
        assert!(matches!(feature.data, TileContent::Point(_)));
    }
}

#[test]
fn test_cartesian_tile_centroid() {
    let unit: i64 = COORD_ONE;
    let range = DataRange {
        min_x: 0,
        min_y: 0,
        max_x: 2 * unit,
        max_y: 2 * unit,
        ..Default::default()
    };
    let options = Supercluster::builder()
        .radius(40)
        .extent(512)
        .min_points(2)
        .max_zoom(16)
        .coordinate_system(CoordinateSystem::Cartesian { range })
        .build();
    let mut cluster = Supercluster::new(options);
    // three points around the middle of the caller range (0,0)..(2,2),
    // close enough to merge under the forty-pixel radius
    cluster
        .load(vec![
            Some(InputPoint {
                x: range.normalize(19 * unit / 20),
                y: range.normalize(19 * unit / 20),
            }),
            Some(InputPoint { x: range.normalize(unit), y: range.normalize(unit) }),
            Some(InputPoint {
                x: range.normalize(21 * unit / 20),
                y: range.normalize(21 * unit / 20),
            }),
        ])
        .unwrap();

    let tile = cluster.get_tile(0, 0, 0).unwrap();

    assert_eq!(tile.features.len(), 1);
    // the cluster sits at the centroid, the middle of the tile in pixels
    assert_eq!(tile.features[0].x, 256);
    assert_eq!(tile.features[0].y, 256);
    match &tile.features[0].data {
        TileContent::Cluster(md) => assert_eq!(md.point_count, 3),
        TileContent::Point(_) => panic!("expected a cluster"),
    }
}

#[test]
fn test_clusters_when_query_crosses_international_dateline() {
    let to_nx = |lng: f64| -> i64 { ((lng / 360.0 + 0.5) * 4294967296.0).round() as i64 };
    let to_ny = |lat: f64| -> i64 {
        let sin = lat.to_radians().sin();
        let y = 0.5 - (0.25 * ((1.0 + sin) / (1.0 - sin)).ln()) / std::f64::consts::PI;
        (y.clamp(0.0, 1.0) * 4294967296.0).round() as i64
    };
    let options = Supercluster::builder()
        .radius(40)
        .extent(512)
        .min_points(2)
        .max_zoom(16)
        .coordinate_system(CoordinateSystem::LatLng)
        .build();
    let mut cluster = Supercluster::new(options);
    cluster
        .load(vec![
            Some(InputPoint { x: to_nx(-178.989), y: to_ny(0.0) }),
            Some(InputPoint { x: to_nx(-178.990), y: to_ny(0.0) }),
            Some(InputPoint { x: to_nx(-178.991), y: to_ny(0.0) }),
            Some(InputPoint { x: to_nx(-178.992), y: to_ny(0.0) }),
        ])
        .unwrap();

    let non_crossing = cluster
        .get_clusters([to_nx(-179.0), to_ny(10.0), to_nx(-177.0), to_ny(-10.0)], 1)
        .unwrap();
    let crossing = cluster
        .get_clusters([to_nx(179.0), to_ny(10.0), to_nx(-177.0), to_ny(-10.0)], 1)
        .unwrap();

    assert!(!crossing.is_empty());
    assert!(!non_crossing.is_empty());
    assert_eq!(non_crossing.len(), crossing.len());
}

#[test]
fn test_dateline_halves() {
    let to_nx = |lng: f64| -> i64 { ((lng / 360.0 + 0.5) * 4294967296.0).round() as i64 };
    let to_ny = |lat: f64| -> i64 {
        let sin = lat.to_radians().sin();
        let y = 0.5 - (0.25 * ((1.0 + sin) / (1.0 - sin)).ln()) / std::f64::consts::PI;
        (y.clamp(0.0, 1.0) * 4294967296.0).round() as i64
    };
    let options = Supercluster::builder().build();
    let mut cluster = Supercluster::new(options);
    cluster
        .load(vec![
            Some(InputPoint { x: to_nx(-178.989), y: to_ny(0.0) }),
            Some(InputPoint { x: to_nx(179.5), y: to_ny(0.0) }),
            Some(InputPoint { x: to_nx(0.0), y: to_ny(0.0) }),
        ])
        .unwrap();

    let whole = cluster
        .get_clusters([to_nx(179.0), to_ny(10.0), to_nx(-177.0), to_ny(-10.0)], 2)
        .unwrap();
    let east = cluster
        .get_clusters([to_nx(179.0), to_ny(10.0), to_nx(180.0), to_ny(-10.0)], 2)
        .unwrap();
    let west = cluster
        .get_clusters([to_nx(-180.0), to_ny(10.0), to_nx(-177.0), to_ny(-10.0)], 2)
        .unwrap();

    assert_eq!(whole.len(), east.len() + west.len());
    assert_eq!(whole.len(), 2);
}

#[test]
fn test_weight_sum_invariant() {
    let to_nx = |lng: f64| -> i64 { ((lng / 360.0 + 0.5) * 4294967296.0).round() as i64 };
    let half: i64 = COORD_ONE / 2;
    let options = Supercluster::builder().build();
    let mut cluster = Supercluster::new(options);
    cluster
        .load(vec![
            Some(InputPoint { x: to_nx(0.0), y: half }),
            Some(InputPoint { x: to_nx(0.001), y: half }),
            Some(InputPoint { x: to_nx(2.0), y: half }),
            Some(InputPoint { x: to_nx(50.0), y: half }),
            Some(InputPoint { x: to_nx(50.001), y: half }),
        ])
        .unwrap();

    for z in [0u8, 1, 5, 16, 17] {
        let results = cluster.get_clusters([0, 0, COORD_ONE, COORD_ONE], z).unwrap();
        let mut sum: u64 = 0;
        for r in &results {
            match r {
                FeatureData::Cluster(cf) => sum += cf.metadata.point_count,
                FeatureData::Point(_) => sum += 1,
            }
        }
        assert_eq!(sum, 5);
    }
}

#[test]
fn test_monotone_zoom() {
    let to_nx = |lng: f64| -> i64 { ((lng / 360.0 + 0.5) * 4294967296.0).round() as i64 };
    let half: i64 = COORD_ONE / 2;
    let options = Supercluster::builder().build();
    let mut cluster = Supercluster::new(options);
    cluster
        .load(vec![
            Some(InputPoint { x: to_nx(0.0), y: half }),
            Some(InputPoint { x: to_nx(0.001), y: half }),
            Some(InputPoint { x: to_nx(2.0), y: half }),
            Some(InputPoint { x: to_nx(50.0), y: half }),
            Some(InputPoint { x: to_nx(50.001), y: half }),
        ])
        .unwrap();

    let mut previous = 0;
    for z in 0u8..=17 {
        let count = cluster.get_clusters([0, 0, COORD_ONE, COORD_ONE], z).unwrap().len();
        assert!(previous <= count);
        previous = count;
    }
}

#[test]
fn test_idempotent_load() {
    let to_nx = |lng: f64| -> i64 { ((lng / 360.0 + 0.5) * 4294967296.0).round() as i64 };
    let half: i64 = COORD_ONE / 2;
    let points = vec![
        Some(InputPoint { x: to_nx(0.0), y: half }),
        Some(InputPoint { x: to_nx(0.001), y: half }),
        None,
        Some(InputPoint { x: to_nx(50.0), y: half }),
    ];
    let mut first = Supercluster::new(Supercluster::builder().build());
    first.load(points.clone()).unwrap();
    let mut second = Supercluster::new(Supercluster::builder().build());
    second.load(points).unwrap();

    for z in 0u8..=17 {
        let a = first.get_clusters([0, 0, COORD_ONE, COORD_ONE], z).unwrap();
        let b = second.get_clusters([0, 0, COORD_ONE, COORD_ONE], z).unwrap();
        assert_eq!(a, b);
    }
}

#[test]
fn test_cluster_children_and_leaves() {
    let half: i64 = COORD_ONE / 2;
    let options = Supercluster::builder().build();
    let mut cluster = Supercluster::new(options);
    cluster
        .load(vec![
            Some(InputPoint { x: half, y: half }),
            Some(InputPoint { x: half, y: half }),
            Some(InputPoint { x: half, y: half }),
        ])
        .unwrap();

    let world = cluster.get_clusters([0, 0, COORD_ONE, COORD_ONE], 0).unwrap();
    assert_eq!(world.len(), 1);
    let cluster_id = match &world[0] {
        FeatureData::Cluster(cf) => {
            assert_eq!(cf.metadata.point_count, 3);
            cf.metadata.cluster_id
        },
        FeatureData::Point(_) => panic!("expected a cluster"),
    };

    let children = cluster.get_children(cluster_id).unwrap();
    assert_eq!(children.len(), 3);
    for child in &children {
        assert!(matches!(child, FeatureData::Point(_)));
    }

    assert_eq!(cluster.get_cluster_expansion_zoom(cluster_id), 17);

    assert_eq!(cluster.get_leaves(cluster_id, 10, 0), vec![0, 1, 2]);
    assert_eq!(cluster.get_leaves(cluster_id, 2, 1), vec![1, 2]);
}

#[test]
fn test_tile_not_found() {
    let half: i64 = COORD_ONE / 2;
    let options = Supercluster::builder().build();
    let mut cluster = Supercluster::new(options);
    cluster.load(vec![Some(InputPoint { x: half, y: half })]).unwrap();

    assert_eq!(cluster.get_tile(10, 10, 10), Err(SuperclusterError::TileNotFound));
}

#[test]
fn test_children_not_found() {
    let half: i64 = COORD_ONE / 2;
    let options = Supercluster::builder().build();
    let mut cluster = Supercluster::new(options);
    cluster.load(vec![Some(InputPoint { x: half, y: half })]).unwrap();

    // an id below the input count is a point index, not a cluster
    assert_eq!(cluster.get_children(0), Err(SuperclusterError::ClusterNotFound));
    // an id that decodes into range but to no populated cluster
    assert_eq!(cluster.get_children(5), Err(SuperclusterError::ClusterNotFound));
}

#[test]
fn test_children_unknown_tree() {
    let half: i64 = COORD_ONE / 2;
    let options = Supercluster::builder().build();
    let mut cluster = Supercluster::new(options);
    cluster.load(vec![Some(InputPoint { x: half, y: half })]).unwrap();

    assert_eq!(cluster.get_children(100000), Err(SuperclusterError::TreeNotFound));
}

#[test]
fn test_queries_before_load() {
    let cluster = Supercluster::new(Supercluster::builder().build());

    assert_eq!(
        cluster.get_clusters([0, 0, COORD_ONE, COORD_ONE], 0),
        Err(SuperclusterError::TreeNotFound)
    );
    assert_eq!(cluster.get_tile(0, 0, 0), Err(SuperclusterError::TreeNotFound));
}

#[test]
fn test_kdbush_range_oracle() {
    let mut rows: Vec<StoreRow> = Vec::new();
    let mut seed: i64 = 12345;
    for i in 0..40usize {
        seed = (seed * 1103515245 + 12345) % COORD_ONE;
        let x = seed;
        seed = (seed * 1103515245 + 12345) % COORD_ONE;
        let y = seed;
        rows.push(StoreRow {
            x,
            y,
            zoom_processed: u32::MAX,
            id_or_index: i,
            parent_id: None,
            weight: 1,
        });
    }
    let tree = KDBush::build(rows.clone(), 3);

    let min_x = COORD_ONE / 8;
    let min_y = COORD_ONE / 8;
    let max_x = COORD_ONE / 2;
    let max_y = 3 * COORD_ONE / 4;
    let got = tree.range(min_x, min_y, max_x, max_y);
    let mut expected: Vec<usize> = Vec::new();
    for (i, row) in rows.iter().enumerate() {
        if min_x <= row.x && row.x <= max_x && min_y <= row.y && row.y <= max_y {
            expected.push(i);
        }
    }
    assert_eq!(got, expected);
    assert!(!expected.is_empty());
}

#[test]
fn test_kdbush_within_oracle() {
    let mut rows: Vec<StoreRow> = Vec::new();
    let mut seed: i64 = 777;
    for i in 0..40usize {
        seed = (seed * 1103515245 + 12345) % COORD_ONE;
        let x = seed;
        seed = (seed * 1103515245 + 12345) % COORD_ONE;
        let y = seed;
        rows.push(StoreRow {
            x,
            y,
            zoom_processed: u32::MAX,
            id_or_index: i,
            parent_id: None,
            weight: 1,
        });
    }
    let tree = KDBush::build(rows.clone(), 3);

    let cx = COORD_ONE / 2;
    let cy = COORD_ONE / 2;
    let r = COORD_ONE / 3;
    let got = tree.within(cx, cy, r);
    let mut expected: Vec<usize> = Vec::new();
    for (i, row) in rows.iter().enumerate() {
        let dx = (row.x - cx) as i128;
        let dy = (row.y - cy) as i128;
        if dx * dx + dy * dy <= (r as i128) * (r as i128) {
            expected.push(i);
        }
    }
    assert_eq!(got, expected);
    assert!(!expected.is_empty());
}
