use evefrontier_lib::dataset::{
    evaluate_cache_state, needs_latest_tag, normalize_data_dir, normalize_windows_data_dir, test_normalize_data_dir, CacheState, DatasetPaths,
    MarkerRequest, ReleaseMarker,
};
use evefrontier_lib::github::DatasetRelease;

fn marker(requested: MarkerRequest, tag: &str) -> Option<ReleaseMarker> {
    Some(ReleaseMarker { requested, resolved_tag: tag.to_string(), cache_dir: None })
}

#[test]
fn paths_for_database() {
    let p = DatasetPaths::for_database("/data/static_data.db".to_string(), true);
    assert_eq!(p.database, "/data/static_data.db");
    assert_eq!(p.spatial_index.as_deref(), Some("/data/static_data.db.spatial.bin"));
    assert!(p.ship_data.is_none());
    let q = DatasetPaths::for_database_with_ship("a.db".to_string(), false, Some("ship_data.csv".to_string()));
    assert!(q.spatial_index.is_none());
    assert_eq!(q.ship_data.as_deref(), Some("ship_data.csv"));
}

#[test]
fn data_dir_is_kept_on_this_platform() {
    assert_eq!(normalize_data_dir("/home/u/.local/share/evefrontier"), "/home/u/.local/share/evefrontier");
    assert_eq!(test_normalize_data_dir("/a/evefrontier/evefrontier/data"), "/a/evefrontier/evefrontier/data");
}

#[test]
fn marker_text_round_trip() {
    let m = ReleaseMarker::new(&DatasetRelease::latest(), "  e6c3\n");
    assert_eq!(m.resolved_tag, "e6c3");
    let text = m.format();
    assert_eq!(text, "requested=latest\nresolved=e6c3\n");
    let back = ReleaseMarker::from_str(&text).expect("parses");
    assert_eq!(back.requested, MarkerRequest::Latest);
    assert_eq!(back.resolved_tag, "e6c3");
    assert!(back.cache_dir.is_none());

    let mut with_dir = ReleaseMarker::new(&DatasetRelease::tag("e6c3"), "e6c3");
    with_dir.cache_dir = Some("/cache/dir".to_string());
    let text = with_dir.format();
    assert_eq!(text, "requested=tag\nresolved=e6c3\ncache_dir=/cache/dir\n");
    let back = ReleaseMarker::from_str(&text).expect("parses");
    assert_eq!(back.requested, MarkerRequest::Tag);
    assert_eq!(back.cache_dir.as_deref(), Some("/cache/dir"));
}

#[test]
fn marker_parse_rules() {
    assert!(ReleaseMarker::from_str("   \n").is_err());
    let legacy = ReleaseMarker::from_str("e6c3\n").expect("fallback");
    assert_eq!(legacy.requested, MarkerRequest::Tag);
    assert_eq!(legacy.resolved_tag, "e6c3");
    let crlf = ReleaseMarker::from_str("requested= latest \r\nresolved= e7 \r\n").expect("parses");
    assert_eq!(crlf.requested, MarkerRequest::Latest);
    assert_eq!(crlf.resolved_tag, "e7");
    let unknown = ReleaseMarker::from_str("requested=weird\nresolved=e7\n").expect("fallback");
    assert_eq!(unknown.requested, MarkerRequest::Tag);
    assert_eq!(unknown.resolved_tag, "requested=weird\nresolved=e7");
    assert_eq!(MarkerRequest::parse(" tag "), Some(MarkerRequest::Tag));
    assert_eq!(MarkerRequest::parse("Latest"), None);
    assert_eq!(MarkerRequest::Latest.as_str(), "latest");
}

#[test]
fn cache_state_for_tagged_release() {
    let release = DatasetRelease::tag("e6c3");
    assert!(matches!(evaluate_cache_state(&release, &marker(MarkerRequest::Tag, "e6c3"), &None), CacheState::Fresh));
    match evaluate_cache_state(&release, &marker(MarkerRequest::Latest, "e6c2"), &None) {
        CacheState::Stale { resolved_tag } => assert_eq!(resolved_tag.as_deref(), Some("e6c3")),
        CacheState::Fresh => panic!("expected stale"),
    }
    assert!(matches!(evaluate_cache_state(&release, &None, &None), CacheState::Stale { resolved_tag: Some(_) }));
}

#[test]
fn cache_state_for_latest_release() {
    let release = DatasetRelease::latest();
    let m = marker(MarkerRequest::Latest, "e6c3");
    assert!(needs_latest_tag(&release, &m));
    assert!(matches!(evaluate_cache_state(&release, &m, &Some("e6c3".to_string())), CacheState::Fresh));
    match evaluate_cache_state(&release, &m, &Some("e7a1".to_string())) {
        CacheState::Stale { resolved_tag } => assert_eq!(resolved_tag.as_deref(), Some("e7a1")),
        CacheState::Fresh => panic!("expected stale"),
    }
    // When the latest tag cannot be learned the cached copy is kept.
    assert!(matches!(evaluate_cache_state(&release, &m, &None), CacheState::Fresh));
    let tagged_marker = marker(MarkerRequest::Tag, "e6c3");
    assert!(!needs_latest_tag(&release, &tagged_marker));
    assert!(matches!(
        evaluate_cache_state(&release, &tagged_marker, &None),
        CacheState::Stale { resolved_tag: None }
    ));
    assert!(!needs_latest_tag(&DatasetRelease::tag("x"), &m));
}

fn normalize_windows(path: &str) -> String {
    let components: Vec<String> = path.split('\\').map(String::from).collect();
    normalize_windows_data_dir(components).join("\\")
}

#[test]
fn collapses_duplicate_segments() {
    let input = r"C:\Users\mcp\AppData\Roaming\evefrontier\evefrontier\data";
    let expected = r"C:\Users\mcp\AppData\Roaming\evefrontier\data";

    assert_eq!(normalize_windows(input), expected);
}

#[test]
fn preserves_already_normalized_paths() {
    let input = r"C:\Users\mcp\AppData\Roaming\evefrontier\data";

    assert_eq!(normalize_windows(input), input);
}

#[test]
fn handles_unc_paths() {
    let input = r"\\server\share\evefrontier\evefrontier\data";
    let expected = r"\\server\share\evefrontier\data";

    assert_eq!(normalize_windows(input), expected);
}

#[test]
fn collapse_ignores_ascii_case_and_repeats() {
    assert_eq!(normalize_windows(r"C:\a\EveFrontier\evefrontier\EVEFRONTIER\data"), r"C:\a\EveFrontier\data");
    assert_eq!(normalize_windows(r"x\y"), r"x\y");
}

#[test]
fn normalizing_twice_equals_normalizing_once() {
    for input in [
        r"C:\Users\mcp\AppData\Roaming\evefrontier\evefrontier\evefrontier\data",
        r"C:\a\EveFrontier\evefrontier\EVEFRONTIER\data",
        r"\\server\share\evefrontier\data",
    ] {
        let once = normalize_windows(input);
        assert_eq!(normalize_windows(&once), once);
    }
}
