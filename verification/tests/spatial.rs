use evefrontier_lib::digest::{dataset_checksum, hex_encode, sha256_hex};
use evefrontier_lib::error::IndexFormatError;
use evefrontier_lib::spatial::{
    decode_frame, encode_frame, index_file_bytes, read_index_file, read_release_tag, spatial_index_path,
    verify_freshness, DatasetMetadata, FreshnessProbe, FreshnessResult, IndexHeader, MetadataSection,
};
use evefrontier_lib::Error;

fn metadata(tag: Option<&str>) -> DatasetMetadata {
    DatasetMetadata { checksum: [0x42; 32], release_tag: tag.map(|t| t.to_string()), build_timestamp: 1735500000 }
}

#[test]
fn hex_encoding_is_lowercase_pairs() {
    assert_eq!(hex_encode(&[0xDE, 0xAD, 0xBE, 0xEF]), "deadbeef");
    assert_eq!(hex_encode(&[0x00, 0x0f, 0xa0]), "000fa0");
    assert_eq!(hex_encode(&[]), "");
    assert_eq!(hex_encode(&[0x42; 32]).len(), 64);
}

#[test]
fn index_path_appends_suffix() {
    assert_eq!(spatial_index_path("static_data.db"), "static_data.db.spatial.bin");
    assert_eq!(spatial_index_path("/tmp/x/data.db"), "/tmp/x/data.db.spatial.bin");
}

#[test]
fn frame_round_trip_v1() {
    let header = IndexHeader { version: 1, flags: 1, node_count: 3 };
    let bytes = encode_frame(header, &None, &[1, 2, 3, 4]);
    assert_eq!(&bytes[0..4], b"EFSI");
    assert_eq!(bytes[4], 1);
    assert_eq!(bytes[5], 1);
    assert_eq!(&bytes[6..10], &3u32.to_le_bytes());
    assert_eq!(bytes.len(), 16 + 4 + 32);
    let frame = decode_frame(&bytes).expect("decodes");
    assert_eq!(frame.header, header);
    assert!(frame.metadata.is_none());
    assert_eq!(frame.body, vec![1, 2, 3, 4]);
}

#[test]
fn frame_round_trip_v2_metadata() {
    let header = IndexHeader { version: 2, flags: 3, node_count: 70000 };
    let section = MetadataSection { checksum: [7; 32], tag: b"e6c3".to_vec(), build_timestamp: -5 };
    let bytes = encode_frame(header, &Some(section), &[9, 9]);
    assert_eq!(bytes.len(), 16 + 32 + 2 + 4 + 8 + 2 + 32);
    assert_eq!(&bytes[48..50], &4u16.to_le_bytes());
    assert_eq!(&bytes[54..62], &(-5i64).to_le_bytes());
    let frame = decode_frame(&bytes).expect("decodes");
    assert_eq!(frame.header, header);
    let m = frame.metadata.expect("metadata");
    assert_eq!(m.checksum, [7; 32]);
    assert_eq!(m.tag, b"e6c3".to_vec());
    assert_eq!(m.build_timestamp, -5);
    assert_eq!(frame.body, vec![9, 9]);
}

#[test]
fn frame_errors() {
    assert_eq!(decode_frame(&[0u8; 10]).unwrap_err(), IndexFormatError::TruncatedHeader);
    let mut bad = encode_frame(IndexHeader { version: 1, flags: 0, node_count: 0 }, &None, &[1]);
    bad[0] = b'X';
    assert_eq!(decode_frame(&bad).unwrap_err(), IndexFormatError::InvalidMagic);
    let mut v9 = encode_frame(IndexHeader { version: 1, flags: 0, node_count: 0 }, &None, &[1]);
    v9[4] = 9;
    assert_eq!(decode_frame(&v9).unwrap_err(), IndexFormatError::UnsupportedVersion { version: 9 });
    let mut corrupt = encode_frame(IndexHeader { version: 1, flags: 0, node_count: 0 }, &None, &[1, 2, 3]);
    let last = corrupt.len() - 1;
    corrupt[last] ^= 0xff;
    assert_eq!(decode_frame(&corrupt).unwrap_err(), IndexFormatError::ChecksumMismatch);
    let header_only = &encode_frame(IndexHeader { version: 1, flags: 0, node_count: 0 }, &None, &[])[..20];
    assert_eq!(decode_frame(header_only).unwrap_err(), IndexFormatError::TruncatedChecksum);
    let mut meta_header = vec![b'E', b'F', b'S', b'I', 2, 2, 0, 0, 0, 0, 0, 0, 0, 0, 0, 0];
    meta_header.extend_from_slice(&[0u8; 20]);
    assert_eq!(decode_frame(&meta_header).unwrap_err(), IndexFormatError::TruncatedMetadata);
}

#[test]
fn version_two_without_flag_has_no_metadata() {
    let bytes = encode_frame(IndexHeader { version: 2, flags: 1, node_count: 1 }, &None, &[5]);
    let frame = decode_frame(&bytes).expect("decodes");
    assert!(frame.metadata.is_none());
}

#[test]
fn index_file_round_trip_with_metadata() {
    let payload = b"serialized nodes".to_vec();
    let meta = Some(metadata(Some("e6c3")));
    let bytes = index_file_bytes(&payload, 2, true, &meta).expect("writes");
    assert_eq!(bytes[4], 2);
    assert_eq!(bytes[5], 3);
    let file = read_index_file(&bytes).expect("reads");
    assert_eq!(file.header, IndexHeader { version: 2, flags: 3, node_count: 2 });
    assert_eq!(file.payload, payload);
    let m = file.metadata.expect("metadata");
    assert_eq!(m.checksum, [0x42; 32]);
    assert_eq!(m.release_tag.as_deref(), Some("e6c3"));
    assert_eq!(m.build_timestamp, 1735500000);
}

#[test]
fn index_file_round_trip_without_metadata() {
    let payload = vec![0u8; 1000];
    let bytes = index_file_bytes(&payload, 5, false, &None).expect("writes");
    assert_eq!(bytes[4], 1);
    assert_eq!(bytes[5], 0);
    // The body is a zstd frame, much shorter than the zeros it holds.
    assert_eq!(&bytes[16..20], &[0x28, 0xB5, 0x2F, 0xFD]);
    assert!(bytes.len() < payload.len());
    let file = read_index_file(&bytes).expect("reads");
    assert_eq!(file.header.node_count, 5);
    assert!(file.metadata.is_none());
    assert_eq!(file.payload, payload);
}

#[test]
fn empty_tag_reads_back_as_none() {
    let meta = Some(metadata(Some("")));
    let bytes = index_file_bytes(&[1, 2, 3], 1, false, &meta).expect("writes");
    let file = read_index_file(&bytes).expect("reads");
    assert_eq!(file.metadata.expect("metadata").release_tag, None);
}

#[test]
fn corrupted_checksum_fails_to_load() {
    let mut bytes = index_file_bytes(&[1, 2, 3], 1, false, &None).expect("writes");
    let last = bytes.len() - 1;
    bytes[last] ^= 0x01;
    assert!(matches!(
        read_index_file(&bytes),
        Err(Error::SpatialIndexDeserialize { reason: IndexFormatError::ChecksumMismatch })
    ));
}

#[test]
fn undecodable_body_is_reported() {
    let bytes = encode_frame(IndexHeader { version: 1, flags: 0, node_count: 0 }, &None, &[1, 2, 3]);
    assert!(matches!(
        read_index_file(&bytes),
        Err(Error::SpatialIndexDeserialize { reason: IndexFormatError::Decompression })
    ));
}

#[test]
fn release_tag_from_marker() {
    assert_eq!(read_release_tag("requested=latest\nresolved=e6c3\n"), Some("e6c3".to_string()));
    assert_eq!(read_release_tag("resolved=  \nresolved= e7 \r\n"), Some("e7".to_string()));
    assert_eq!(read_release_tag("requested=latest\n"), None);
    assert_eq!(read_release_tag(""), None);
}

fn probe() -> FreshnessProbe {
    FreshnessProbe {
        dataset_exists: true,
        index_exists: true,
        index_metadata: Ok(Some(metadata(Some("e6c4")))),
        dataset_checksum: Ok([0x42; 32]),
        dataset_tag: Some("e6c3".to_string()),
    }
}

#[test]
fn freshness_outcomes() {
    match verify_freshness("idx", "db", &probe()) {
        FreshnessResult::Fresh { checksum, release_tag } => {
            assert_eq!(checksum, "42".repeat(32));
            assert_eq!(release_tag.as_deref(), Some("e6c3"));
        },
        other => panic!("unexpected {:?}", other),
    }
    let mut stale = probe();
    stale.dataset_checksum = Ok([0x01; 32]);
    match verify_freshness("idx", "db", &stale) {
        FreshnessResult::Stale { expected_checksum, actual_checksum, expected_tag, actual_tag } => {
            assert_eq!(expected_checksum, "42".repeat(32));
            assert_eq!(actual_checksum, "01".repeat(32));
            assert_eq!(expected_tag.as_deref(), Some("e6c4"));
            assert_eq!(actual_tag.as_deref(), Some("e6c3"));
        },
        other => panic!("unexpected {:?}", other),
    }
}

#[test]
fn freshness_failures() {
    let mut p = probe();
    p.dataset_exists = false;
    assert!(matches!(
        verify_freshness("idx", "db", &p),
        FreshnessResult::DatasetMissing { expected_path } if expected_path == "db"
    ));
    let mut p = probe();
    p.index_exists = false;
    assert!(matches!(
        verify_freshness("idx", "db", &p),
        FreshnessResult::Missing { expected_path } if expected_path == "idx"
    ));
    let mut p = probe();
    p.index_metadata = Err("bad magic".to_string());
    assert!(matches!(
        verify_freshness("idx", "db", &p),
        FreshnessResult::Error { message } if message == "failed to load index: bad magic"
    ));
    let mut p = probe();
    p.index_metadata = Ok(None);
    assert!(matches!(
        verify_freshness("idx", "db", &p),
        FreshnessResult::LegacyFormat { index_path, message } if index_path == "idx" && message.contains("v1 format")
    ));
    let mut p = probe();
    p.dataset_checksum = Err("denied".to_string());
    assert!(matches!(
        verify_freshness("idx", "db", &p),
        FreshnessResult::Error { message } if message == "failed to compute dataset checksum: denied"
    ));
}

#[test]
fn test_hex_roundtrip() {
    let original_bytes = [0xDE, 0xAD, 0xBE, 0xEF];
    let hex = hex_encode(&original_bytes);
    assert_eq!(hex, "deadbeef");
    let parsed: Vec<u8> =
        (0..hex.len()).step_by(2).map(|i| u8::from_str_radix(&hex[i..i + 2], 16).expect("valid hex")).collect();
    assert_eq!(parsed, original_bytes);
}

#[test]
fn test_read_release_tag_exists() {
    // The marker as the dataset downloader writes it.
    let marker = format!("requested=latest\nresolved={}\n", "e6c3");
    assert_eq!(read_release_tag(&marker), Some("e6c3".to_string()));
}

#[test]
fn test_read_release_tag_missing() {
    assert_eq!(read_release_tag(""), None);
}

#[test]
fn test_verify_freshness_fresh() {
    let mut p = probe();
    p.index_metadata = Ok(Some(metadata(Some("e6c3"))));
    match verify_freshness("static_data.db.spatial.bin", "static_data.db", &p) {
        FreshnessResult::Fresh { release_tag, .. } => assert_eq!(release_tag, Some("e6c3".to_string())),
        other => panic!("expected Fresh, got {:?}", other),
    }
}

#[test]
fn test_verify_freshness_stale() {
    let mut p = probe();
    p.dataset_checksum = Ok([0x43; 32]);
    match verify_freshness("static_data.db.spatial.bin", "static_data.db", &p) {
        FreshnessResult::Stale { expected_checksum, actual_checksum, .. } => {
            assert_ne!(expected_checksum, actual_checksum, "checksums should differ")
        }
        other => panic!("expected Stale, got {:?}", other),
    }
}

#[test]
fn test_verify_freshness_missing() {
    let mut p = probe();
    p.index_exists = false;
    match verify_freshness("static_data.db.spatial.bin", "static_data.db", &p) {
        FreshnessResult::Missing { expected_path } => assert!(expected_path.contains("spatial.bin")),
        other => panic!("expected Missing, got {:?}", other),
    }
}

#[test]
fn test_verify_freshness_legacy_format() {
    let mut p = probe();
    p.index_metadata = Ok(None);
    match verify_freshness("static_data.db.spatial.bin", "static_data.db", &p) {
        FreshnessResult::LegacyFormat { message, .. } => {
            let lower = message.to_lowercase();
            assert!(
                lower.contains("legacy") || lower.contains("v1") || lower.contains("metadata"),
                "message should indicate legacy format: {}",
                message
            );
        }
        other => panic!("expected LegacyFormat, got {:?}", other),
    }
}

#[test]
fn test_verify_freshness_dataset_missing() {
    let mut p = probe();
    p.dataset_exists = false;
    match verify_freshness("/tmp/x/nonexistent.db.spatial.bin", "/tmp/x/nonexistent.db", &p) {
        FreshnessResult::DatasetMissing { expected_path } => assert!(expected_path.contains("nonexistent.db")),
        other => panic!("expected DatasetMissing, got {:?}", other),
    }
}

#[test]
fn dataset_checksum_is_sha256_of_the_bytes() {
    let expected = "ba7816bf8f01cfea414140de5dae2223b00361a396177a9cb410ff61f20015ad";
    assert_eq!(sha256_hex(b"abc"), expected);
    assert_eq!(hex_encode(&dataset_checksum(b"abc")), expected);
    let mut p = probe();
    p.index_metadata = Ok(Some(DatasetMetadata { checksum: dataset_checksum(b"abc"), release_tag: None, build_timestamp: 0 }));
    p.dataset_checksum = Ok(dataset_checksum(b"abc"));
    match verify_freshness("i", "d", &p) {
        FreshnessResult::Fresh { checksum, .. } => assert_eq!(checksum, expected),
        other => panic!("expected Fresh, got {:?}", other),
    }
}
