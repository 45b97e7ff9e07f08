use evefrontier_lib::fmap::{decode_fmap_token, decode_raw, encode_fmap_token, encode_raw_bitpacked, Waypoint, WaypointType};
use evefrontier_lib::Error;

const JITA: u32 = 30_000_142;
const PERIMETER: u32 = 30_000_144;
const AMARR: u32 = 30_002_187;

#[test]
fn test_decode_single_waypoint() {
    let waypoints = vec![Waypoint { system_id: JITA, waypoint_type: WaypointType::Start }];
    let token = encode_fmap_token(&waypoints).expect("encode failed");

    let decoded = decode_fmap_token(&token.token).expect("decode failed");

    assert_eq!(decoded.waypoint_count, 1);
    assert_eq!(decoded.bit_width, token.bit_width);
    assert_eq!(decoded.version, token.version);
    assert_eq!(decoded.waypoints.len(), 1);

    let wp = &decoded.waypoints[0];
    assert_eq!(wp.system_id, JITA);
    assert_eq!(wp.waypoint_type, WaypointType::Start);
}

#[test]
fn test_decode_multiple_waypoints() {
    let waypoints = vec![
        Waypoint { system_id: JITA, waypoint_type: WaypointType::Start },
        Waypoint { system_id: PERIMETER, waypoint_type: WaypointType::Jump },
        Waypoint { system_id: AMARR, waypoint_type: WaypointType::SetDestination },
    ];
    let token = encode_fmap_token(&waypoints).expect("encode failed");

    let decoded = decode_fmap_token(&token.token).expect("decode failed");

    assert_eq!(decoded.waypoint_count, 3);
    assert_eq!(decoded.waypoints.len(), 3);

    assert_eq!(decoded.waypoints[0].system_id, JITA);
    assert_eq!(decoded.waypoints[0].waypoint_type, WaypointType::Start);

    assert_eq!(decoded.waypoints[1].system_id, PERIMETER);
    assert_eq!(decoded.waypoints[1].waypoint_type, WaypointType::Jump);

    assert_eq!(decoded.waypoints[2].system_id, AMARR);
    assert_eq!(decoded.waypoints[2].waypoint_type, WaypointType::SetDestination);
}

#[test]
fn test_decode_invalid_base64() {
    let result = decode_fmap_token("!!!invalid base64!!!???");
    assert!(result.is_err());
}

#[test]
fn test_decode_invalid_version() {
    let waypoints = vec![Waypoint { system_id: JITA, waypoint_type: WaypointType::Start }];
    let token_str = encode_fmap_token(&waypoints).expect("encode failed").token;

    assert!(decode_fmap_token(&token_str).is_ok());
}

#[test]
fn test_decode_truncated_data() {
    let waypoints = vec![Waypoint { system_id: JITA, waypoint_type: WaypointType::Start }];
    let token_str = encode_fmap_token(&waypoints).expect("encode failed").token;

    if token_str.len() > 10 {
        let truncated = &token_str[..token_str.len() - 5];
        let result = decode_fmap_token(truncated);
        assert!(result.is_err());
    }
}

#[test]
fn test_round_trip_preserves_all_types() {
    let waypoints = vec![
        Waypoint { system_id: JITA, waypoint_type: WaypointType::Start },
        Waypoint { system_id: PERIMETER, waypoint_type: WaypointType::Jump },
        Waypoint { system_id: AMARR, waypoint_type: WaypointType::NpcGate },
    ];

    let token = encode_fmap_token(&waypoints).expect("encode failed");
    let decoded = decode_fmap_token(&token.token).expect("decode failed");

    for (expected_wp, decoded_wp) in waypoints.iter().zip(decoded.waypoints.iter()) {
        assert_eq!(expected_wp.system_id, decoded_wp.system_id);
        assert_eq!(expected_wp.waypoint_type, decoded_wp.waypoint_type);
    }
}

#[test]
fn invalid_base64_reports_decode_error() {
    let result = decode_fmap_token("!!!invalid base64!!!???");
    assert!(matches!(result, Err(Error::FmapBase64DecodeError)));
}

#[test]
fn non_gzip_payload_reports_decompression_error() {
    // "AAAA" is valid base64 for three zero bytes, which are no gzip stream.
    let result = decode_fmap_token("AAAA");
    assert!(matches!(result, Err(Error::FmapDecompressionError)));
}

#[test]
fn round_trip_with_all_five_types() {
    let waypoints = vec![
        Waypoint { system_id: JITA, waypoint_type: WaypointType::Start },
        Waypoint { system_id: PERIMETER, waypoint_type: WaypointType::Jump },
        Waypoint { system_id: AMARR, waypoint_type: WaypointType::NpcGate },
        Waypoint { system_id: 30_000_000, waypoint_type: WaypointType::SmartGate },
        Waypoint { system_id: 30_999_999, waypoint_type: WaypointType::SetDestination },
    ];
    let token = encode_fmap_token(&waypoints).expect("encode failed");
    let decoded = decode_fmap_token(&token.token).expect("decode failed");
    assert_eq!(decoded.waypoints, waypoints);
    assert_eq!(decoded.waypoint_count, 5);
    assert_eq!(decoded.bit_width, token.bit_width);
}

#[test]
fn raw_round_trip_without_compression() {
    let waypoints = vec![
        Waypoint { system_id: JITA, waypoint_type: WaypointType::Start },
        Waypoint { system_id: AMARR, waypoint_type: WaypointType::SetDestination },
    ];
    let raw = encode_raw_bitpacked(&waypoints).expect("encode failed");
    let decoded = decode_raw(&raw).expect("decode failed");
    assert_eq!(decoded.waypoints, waypoints);
}
