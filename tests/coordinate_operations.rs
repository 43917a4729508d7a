use grid9::{
    batch_decode, batch_encode, encode, get_bounding_box, get_center_point, group_by_grid9,
    is_valid_encoding, Coordinate, Grid9Error, NearbyScan,
};

fn units(degrees: f64) -> i64 {
    (degrees * 1e7).round() as i64
}

fn degrees(units: i64) -> f64 {
    units as f64 / 1e7
}

fn coord(lat: f64, lon: f64) -> Coordinate {
    Coordinate::new(units(lat), units(lon))
}

#[test]
fn test_batch_encode_decode() {
    let coordinates = vec![
        coord(40.7128, -74.0060),
        coord(51.5074, -0.1278),
        coord(35.6762, 139.6503),
    ];

    let encoded = batch_encode(&coordinates, false).unwrap();
    assert_eq!(encoded.len(), 3);

    let decoded = batch_decode(&encoded).unwrap();
    assert_eq!(decoded.len(), 3);

    for (orig, decoded) in coordinates.iter().zip(decoded.iter()) {
        assert!((degrees(orig.lat) - degrees(decoded.lat)).abs() < 0.01);
        assert!((degrees(orig.lon) - degrees(decoded.lon)).abs() < 0.01);
    }
}

#[test]
fn test_bounding_box() {
    let coordinates = vec![coord(40.0, -75.0), coord(41.0, -73.0), coord(39.0, -76.0)];

    let bbox = get_bounding_box(&coordinates).unwrap();

    assert_eq!(bbox.min_lat, units(39.0));
    assert_eq!(bbox.max_lat, units(41.0));
    assert_eq!(bbox.min_lon, units(-76.0));
    assert_eq!(bbox.max_lon, units(-73.0));
}

#[test]
fn test_center_point() {
    let coordinates = vec![coord(40.0, -75.0), coord(42.0, -73.0)];

    let center = get_center_point(&coordinates).unwrap();

    assert_eq!(center.lat, units(41.0));
    assert_eq!(center.lon, units(-74.0));
}

fn haversine_m(lat1: f64, lon1: f64, lat2: f64, lon2: f64) -> f64 {
    let d_lat = (lat2 - lat1).to_radians();
    let d_lon = (lon2 - lon1).to_radians();
    let a = (d_lat / 2.0).sin().powi(2)
        + lat1.to_radians().cos() * lat2.to_radians().cos() * (d_lon / 2.0).sin().powi(2);
    2.0 * a.sqrt().atan2((1.0 - a).sqrt()) * 6_371_000.0
}

fn scan_nearby(lat: f64, lon: f64, radius_m: f64, max_results: usize) -> Vec<String> {
    let lon_delta = radius_m / (111_320.0 * lat.to_radians().cos()) * 1e7;
    let mut scan =
        NearbyScan::start(units(lat), units(lon), radius_m as i64, lon_delta as i64, max_results)
            .unwrap();
    let (clat, clon) = grid9::decode(&scan.center).unwrap();
    while let Some(token) = scan.candidate() {
        let (plat, plon) = grid9::decode(&token).unwrap();
        let d = haversine_m(degrees(clat), degrees(clon), degrees(plat), degrees(plon));
        scan.record(d <= radius_m);
    }
    scan.into_results()
}

#[test]
fn test_find_nearby() {
    let nearby = scan_nearby(40.7128, -74.0060, 1000.0, 5);
    assert!(!nearby.is_empty());
    assert!(nearby.len() <= 5);

    for code in nearby {
        assert!(is_valid_encoding(&code));
    }
}

#[test]
fn nearby_results_lie_within_radius() {
    let nearby = scan_nearby(40.7128, -74.0060, 50.0, 20);
    assert_eq!(nearby.len(), 20);
    let (clat, clon) = grid9::decode(&encode(units(40.7128), units(-74.0060), false).unwrap()).unwrap();
    for code in nearby {
        let (plat, plon) = grid9::decode(&code).unwrap();
        assert!(haversine_m(degrees(clat), degrees(clon), degrees(plat), degrees(plon)) <= 50.0);
    }
}

#[test]
fn nearby_rejects_bad_radius() {
    assert!(matches!(NearbyScan::start(0, 0, 0, 10, 5), Err(Grid9Error::InvalidRadius(0))));
    assert!(matches!(NearbyScan::start(0, 0, -3, 10, 5), Err(Grid9Error::InvalidRadius(-3))));
    assert!(matches!(
        NearbyScan::start(units(91.0), 0, 100, 10, 5),
        Err(Grid9Error::InvalidLatitude(_))
    ));
}

#[test]
fn nearby_scan_walks_rows() {
    let mut scan = NearbyScan::start(0, 0, 1, 200, 100).unwrap();
    assert_eq!((scan.min_lat, scan.max_lat), (-89, 89));
    assert_eq!((scan.min_lon, scan.max_lon), (-200, 200));
    assert_eq!((scan.lat, scan.lon), (-89, -200));
    scan.record(true);
    assert_eq!((scan.lat, scan.lon), (-89, 69));
    scan.record(false);
    assert_eq!((scan.lat, scan.lon), (180, -200));
    assert!(scan.candidate().is_none());
    let results = scan.into_results();
    assert_eq!(results, vec![encode(-89, -200, false).unwrap()]);
}

#[test]
fn nearby_stops_at_max_results() {
    let mut scan = NearbyScan::start(0, 0, 1000, 10_000, 2).unwrap();
    let mut steps = 0;
    while scan.candidate().is_some() {
        scan.record(true);
        steps += 1;
    }
    assert_eq!(steps, 2);
    assert_eq!(scan.into_results().len(), 2);
}

#[test]
fn nearby_clamps_box() {
    let scan = NearbyScan::start(units(79.9999), units(179.9999), 100_000, 100_000_000, 1).unwrap();
    assert_eq!(scan.max_lat, 800_000_000);
    assert_eq!(scan.max_lon, 1_800_000_000);
}

#[test]
fn test_group_by_grid9() {
    let coordinates = vec![
        coord(40.7128, -74.0060),
        coord(40.7130, -74.0062),
        coord(51.5074, -0.1278),
    ];

    let grouped = group_by_grid9(&coordinates, false).unwrap();

    assert!(!grouped.is_empty());

    let total_coords: usize = grouped.iter().map(|(_, v)| v.len()).sum();
    assert_eq!(total_coords, coordinates.len());
}

#[test]
fn grouping_keeps_input_order() {
    let a = Coordinate::new(407_128_000, -740_060_000);
    let b = Coordinate::new(515_074_000, -1_278_000);
    let a2 = Coordinate::new(407_128_001, -740_060_001);
    let grouped = group_by_grid9(&[a, b, a2], true).unwrap();
    assert_eq!(grouped.len(), 2);
    assert_eq!(grouped[0].0, "Q7K-H2B-BYE");
    assert_eq!(grouped[0].1, vec![a, a2]);
    assert_eq!(grouped[1].0, "S50-M3Z-X2X");
    assert_eq!(grouped[1].1, vec![b]);
}

#[test]
fn grouping_fails_on_bad_coordinate() {
    let bad = Coordinate::new(0, 1_800_000_001);
    assert_eq!(
        group_by_grid9(&[Coordinate::new(0, 0), bad], false),
        Err(Grid9Error::InvalidLongitude(1_800_000_001))
    );
}

#[test]
fn test_empty_input_errors() {
    let empty_coords: Vec<Coordinate> = vec![];

    assert!(matches!(get_bounding_box(&empty_coords), Err(Grid9Error::EmptyInput)));
    assert!(matches!(get_center_point(&empty_coords), Err(Grid9Error::EmptyInput)));
}

#[test]
fn batch_fails_as_a_whole() {
    let coords = vec![Coordinate::new(0, 0), Coordinate::new(-900_000_001, 0), Coordinate::new(0, 1_800_000_001)];
    assert_eq!(batch_encode(&coords, false), Err(Grid9Error::InvalidLatitude(-900_000_001)));
    let tokens = vec!["Q7KH2BBYE".to_string(), "BAD".to_string(), "".to_string()];
    assert_eq!(batch_decode(&tokens), Err(Grid9Error::InvalidLength(3)));
    assert_eq!(batch_encode(&[], true), Ok(vec![]));
}

#[test]
fn center_rounds_down() {
    let coords = vec![Coordinate::new(1, -1), Coordinate::new(2, -2)];
    assert_eq!(get_center_point(&coords), Ok(Coordinate::new(1, -2)));
    let extreme = vec![Coordinate::new(i64::MAX, i64::MIN), Coordinate::new(i64::MAX, i64::MIN)];
    assert_eq!(get_center_point(&extreme), Ok(Coordinate::new(i64::MAX, i64::MIN)));
}

#[test]
fn bounding_box_of_one_point() {
    let b = get_bounding_box(&[Coordinate::new(5, -7)]).unwrap();
    assert_eq!((b.min_lat, b.max_lat, b.min_lon, b.max_lon), (5, 5, -7, -7));
}
