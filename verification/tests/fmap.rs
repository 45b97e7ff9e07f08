use std::io::Read;

use base64::Engine;
use evefrontier_lib::fmap::{encode_fmap_token, encode_raw_bitpacked, Waypoint, WaypointType, BASE_SYSTEM_ID, FMAP_VERSION};
use evefrontier_lib::Error;

#[test]
fn test_encode_single_waypoint() {
    let waypoints = vec![Waypoint { system_id: 30000142, waypoint_type: WaypointType::Start }];

    let token = encode_fmap_token(&waypoints).expect("encode failed");
    assert_eq!(token.version, FMAP_VERSION);
    assert_eq!(token.waypoint_count, 1);
    assert!(!token.token.is_empty());
}

#[test]
fn test_encode_multiple_waypoints() {
    let waypoints = vec![
        Waypoint { system_id: 30000142, waypoint_type: WaypointType::Start },
        Waypoint { system_id: 30000144, waypoint_type: WaypointType::Jump },
        Waypoint { system_id: 30002187, waypoint_type: WaypointType::NpcGate },
    ];

    let token = encode_fmap_token(&waypoints).expect("encode failed");
    assert_eq!(token.version, FMAP_VERSION);
    assert_eq!(token.waypoint_count, 3);
    assert!(!token.token.is_empty());
}

#[test]
fn test_encode_invalid_system_id_below_base() {
    let waypoints = vec![Waypoint { system_id: 29999999, waypoint_type: WaypointType::Start }];

    let result = encode_fmap_token(&waypoints);
    assert!(result.is_err(), "should reject system ID below BASE_SYSTEM_ID");
}

#[test]
fn test_calculate_bit_width_single_waypoint() {
    let waypoints = vec![Waypoint { system_id: BASE_SYSTEM_ID + 142, waypoint_type: WaypointType::Start }];

    let token = encode_fmap_token(&waypoints).expect("encode failed");
    assert!(token.bit_width >= 1 && token.bit_width <= 30);
}

#[test]
fn test_encode_edge_case_max_offset() {
    let max_system_id = BASE_SYSTEM_ID + ((1u32 << 30) - 1);
    let waypoints = vec![Waypoint { system_id: max_system_id, waypoint_type: WaypointType::Start }];

    let token = encode_fmap_token(&waypoints).expect("encode failed");
    assert_eq!(token.bit_width, 30);
}

#[test]
fn bit_width_of_offset_142_is_eight() {
    let waypoints = vec![Waypoint { system_id: BASE_SYSTEM_ID + 142, waypoint_type: WaypointType::Start }];
    let token = encode_fmap_token(&waypoints).expect("encode failed");
    assert_eq!(token.bit_width, 8);
}

#[test]
fn offset_beyond_thirty_bits_is_rejected() {
    let waypoints = vec![Waypoint { system_id: BASE_SYSTEM_ID + (1u32 << 30), waypoint_type: WaypointType::Start }];
    let result = encode_fmap_token(&waypoints);
    assert!(matches!(result, Err(Error::FmapInvalidBitWidth { .. })));
}

#[test]
fn below_base_reports_ids() {
    let waypoints = vec![Waypoint { system_id: 29999999, waypoint_type: WaypointType::Start }];
    let result = encode_fmap_token(&waypoints);
    assert!(matches!(
        result,
        Err(Error::FmapInvalidSystemId { system_id: 29999999, base_id: 30000000 })
    ));
}

#[test]
fn empty_route_encodes_zero_waypoints() {
    let token = encode_fmap_token(&[]).expect("encode failed");
    assert_eq!(token.waypoint_count, 0);
}

#[test]
fn waypoint_type_codes_round_trip() {
    for code in 0u8..5 {
        let t = WaypointType::from_u8(code).expect("known code");
        assert_eq!(t.to_u8(), code);
    }
    assert_eq!(WaypointType::from_u8(5), None);
    assert_eq!(WaypointType::from_u8(4), Some(WaypointType::SetDestination));
}

#[test]
fn token_is_base64_of_gzipped_raw_token() {
    let waypoints = vec![
        Waypoint { system_id: BASE_SYSTEM_ID + 7, waypoint_type: WaypointType::Start },
        Waypoint { system_id: BASE_SYSTEM_ID + 300, waypoint_type: WaypointType::Jump },
    ];
    let token = encode_fmap_token(&waypoints).expect("encode failed");
    assert!(token.token.chars().all(|c| c.is_ascii_alphanumeric() || c == '-' || c == '_'));
    let compressed = base64::engine::general_purpose::URL_SAFE_NO_PAD.decode(&token.token).expect("base64");
    assert_eq!(&compressed[0..2], &[0x1f, 0x8b]);
    let mut raw = Vec::new();
    flate2::read::GzDecoder::new(compressed.as_slice()).read_to_end(&mut raw).expect("gzip");
    assert_eq!(raw, encode_raw_bitpacked(&waypoints).expect("raw"));
}
