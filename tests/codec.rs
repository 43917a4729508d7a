use grid9::{decode, encode, format_for_humans, is_valid_encoding, remove_formatting, Grid9Error};

fn units(degrees: f64) -> i64 {
    (degrees * 1e7).round() as i64
}

fn degrees(units: i64) -> f64 {
    units as f64 / 1e7
}

#[test]
fn test_basic_encode_decode() {
    let lat = 40.7128;
    let lon = -74.0060;

    let encoded = encode(units(lat), units(lon), false).unwrap();
    assert_eq!(encoded.len(), 9);

    let (decoded_lat, decoded_lon) = decode(&encoded).unwrap();
    assert!((degrees(decoded_lat) - lat).abs() < 0.01);
    assert!((degrees(decoded_lon) - lon).abs() < 0.01);
}

#[test]
fn test_human_readable_format() {
    let encoded = encode(units(40.7128), units(-74.0060), true).unwrap();
    assert_eq!(encoded.len(), 11);
    assert!(encoded.contains('-'));

    let compact = encode(units(40.7128), units(-74.0060), false).unwrap();
    let (lat1, lon1) = decode(&encoded).unwrap();
    let (lat2, lon2) = decode(&compact).unwrap();

    assert_eq!(lat1, lat2);
    assert_eq!(lon1, lon2);
}

#[test]
fn lib_test_validation() {
    assert!(is_valid_encoding("Q7KH2BBYF"));
    assert!(is_valid_encoding("Q7K-H2B-BYF"));
    assert!(!is_valid_encoding("INVALID"));
    assert!(!is_valid_encoding("Q7KH2BBYFI"));
}

#[test]
fn test_encode_decode_roundtrip() {
    let test_coords = [
        (40.7128, -74.0060),
        (51.5074, -0.1278),
        (35.6762, 139.6503),
        (0.0, 0.0),
        (-33.8688, 151.2093),
    ];

    for (lat, lon) in test_coords {
        let encoded = encode(units(lat), units(lon), false).unwrap();
        let (decoded_lat, decoded_lon) = decode(&encoded).unwrap();
        assert!(
            (degrees(decoded_lat) - lat).abs() < 0.01,
            "Latitude mismatch: {} vs {}",
            lat,
            decoded_lat
        );
        assert!(
            (degrees(decoded_lon) - lon).abs() < 0.01,
            "Longitude mismatch: {} vs {}",
            lon,
            decoded_lon
        );
    }
}

#[test]
fn test_human_readable_formatting() {
    let encoded = encode(units(40.7128), units(-74.0060), false).unwrap();
    let readable = format_for_humans(&encoded);

    assert_eq!(readable.len(), 11);
    assert_eq!(readable.chars().filter(|&c| c == '-').count(), 2);

    let (lat1, lon1) = decode(&encoded).unwrap();
    let (lat2, lon2) = decode(&readable).unwrap();

    assert_eq!(lat1, lat2);
    assert_eq!(lon1, lon2);
}

#[test]
fn uniform_precision_compressor_test_validation() {
    assert!(is_valid_encoding("Q7KH2BBYF"));
    assert!(is_valid_encoding("Q7K-H2B-BYF"));

    assert!(!is_valid_encoding(""));
    assert!(!is_valid_encoding("TOOLONG"));
    assert!(!is_valid_encoding("INVALID!"));
    assert!(!is_valid_encoding("Q7KH2BBY"));
}

#[test]
fn test_edge_cases() {
    let boundary_coords = [(90.0, 180.0), (-90.0, -180.0), (89.9, 179.9), (-89.9, -179.9)];

    for (lat, lon) in boundary_coords {
        let encoded = encode(units(lat), units(lon), false).unwrap();
        let (decoded_lat, decoded_lon) = decode(&encoded).unwrap();

        assert!((degrees(decoded_lat) - lat).abs() < 0.1);
        assert!((degrees(decoded_lon) - lon).abs() < 0.1);
    }
}

#[test]
fn known_tokens() {
    assert_eq!(encode(units(40.7128), units(-74.0060), false).unwrap(), "Q7KH2BBYE");
    assert_eq!(encode(units(40.7128), units(-74.0060), true).unwrap(), "Q7K-H2B-BYE");
    assert_eq!(encode(units(51.5074), units(-0.1278), false).unwrap(), "S50M3ZX2X");
    assert_eq!(encode(units(90.0), units(180.0), false).unwrap(), "ZZZZZZZZZ");
    assert_eq!(encode(units(-90.0), units(-180.0), false).unwrap(), "000000000");
    assert_eq!(encode(0, 0, false).unwrap(), "FZZZVZZZZ");
}

#[test]
fn decode_gives_cell_start() {
    assert_eq!(decode("Q7KH2BBYE").unwrap(), (407_127_883, -740_060_393));
    assert_eq!(decode("ZZZZZZZZZ").unwrap(), (900_000_000, 1_800_000_000));
    assert_eq!(decode("000000000").unwrap(), (-900_000_000, -1_800_000_000));
    assert_eq!(decode("FZZZVZZZZ").unwrap(), (-214, -214));
}

#[test]
fn round_trip_within_one_cell() {
    for (lat, lon) in [(407_128_000i64, -740_060_000i64), (1, -1), (899_999_999, 1_799_999_999)] {
        let (a, b) = decode(&encode(lat, lon, false).unwrap()).unwrap();
        assert!(a <= lat && lat <= a + 429);
        assert!(b <= lon && lon <= b + 429);
    }
}

#[test]
fn decode_then_encode_is_stable() {
    let (a, b) = decode("Q7K-H2B-BYE").unwrap();
    assert_eq!(encode(a, b, false).unwrap(), "Q7KH2BBYE");
}

#[test]
fn error_values() {
    assert!(matches!(encode(910_000_000, 0, false), Err(Grid9Error::InvalidLatitude(_))));
    assert!(matches!(encode(-910_000_000, 0, false), Err(Grid9Error::InvalidLatitude(_))));
    assert!(matches!(encode(0, 1_810_000_000, false), Err(Grid9Error::InvalidLongitude(_))));
    assert!(matches!(encode(0, -1_810_000_000, false), Err(Grid9Error::InvalidLongitude(_))));
    assert!(matches!(decode(""), Err(Grid9Error::EmptyInput)));
    assert!(matches!(decode("TOOLONG"), Err(Grid9Error::InvalidLength(7))));
    assert!(matches!(decode("INVALID!"), Err(Grid9Error::InvalidLength(8))));
    assert!(matches!(decode("INVALID!!"), Err(Grid9Error::InvalidCharacter('I'))));
    assert_eq!(encode(900_000_001, 0, false), Err(Grid9Error::InvalidLatitude(900_000_001)));
    assert_eq!(encode(900_000_001, 1_800_000_001, false), Err(Grid9Error::InvalidLatitude(900_000_001)));
    assert_eq!(encode(0, -1_800_000_001, false), Err(Grid9Error::InvalidLongitude(-1_800_000_001)));
    assert_eq!(decode("---"), Err(Grid9Error::EmptyInput));
    assert_eq!(decode("Q7KH2BBY"), Err(Grid9Error::InvalidLength(8)));
    assert_eq!(decode("Q7K-H2B-BYE-1"), Err(Grid9Error::InvalidLength(10)));
    assert_eq!(decode("Q7KI2BBYL"), Err(Grid9Error::InvalidCharacter('I')));
    assert_eq!(decode("q7kh2bbye"), Err(Grid9Error::InvalidCharacter('q')));
}

#[test]
fn formatting_edges() {
    assert_eq!(format_for_humans("Q7KH2BBYE"), "Q7K-H2B-BYE");
    assert_eq!(format_for_humans("SHORT"), "SHORT");
    assert_eq!(format_for_humans(""), "");
    assert_eq!(remove_formatting("Q7K-H2B-BYE"), "Q7KH2BBYE");
    assert_eq!(remove_formatting("--a-b--"), "ab");
    assert_eq!(remove_formatting(&format_for_humans("Q7KH2BBYE")), "Q7KH2BBYE");
}

#[test]
fn validation_property_values() {
    assert!(is_valid_encoding("Q7KH2BBYF"));
    assert!(is_valid_encoding("Q7K-H2B-BYF"));
    assert!(!is_valid_encoding("INVALID!"));
    assert!(!is_valid_encoding(""));
    assert!(!is_valid_encoding("TOOLONG12"));
    assert!(!is_valid_encoding("TOOLONG12X"));
    assert!(is_valid_encoding("0123-45678"));
    assert!(!is_valid_encoding("0123456O9"));
}
