use evefrontier_lib::github::{
    cache_file_name, classify_asset, download_error_is_transient, next_backoff, release_error_is_transient,
    release_not_found, resolve_release_tag_locally, sanitize_component, select_dataset_asset, select_ship_asset,
    ship_cache_action, target_dataset_filename, AssetInfo, AssetKind, DatasetRelease, ReleaseAsset, ReleaseResponse,
    RetryState, ShipCacheAction, HTTP_MAX_RETRIES,
};
use evefrontier_lib::Error;

fn asset(name: &str, content_type: Option<&str>) -> ReleaseAsset {
    ReleaseAsset {
        name: name.to_string(),
        browser_download_url: format!("https://example.com/{}", name),
        content_type: content_type.map(|s| s.to_string()),
    }
}

#[test]
fn classify_detects_ship_data_by_name() {
    let asset = ReleaseAsset {
        name: "ship_data.csv".to_string(),
        browser_download_url: "https://example.com/ship_data.csv".to_string(),
        content_type: Some("text/csv".to_string()),
    };

    assert_eq!(classify_asset(&asset), Some(AssetKind::ShipCsv));
}

#[test]
fn classify_detects_ship_data_by_inclusion() {
    let asset = ReleaseAsset {
        name: "datasets_ship_data_v2.csv".to_string(),
        browser_download_url: "https://example.com/datasets_ship_data_v2.csv".to_string(),
        content_type: Some("text/csv".to_string()),
    };

    assert_eq!(classify_asset(&asset), Some(AssetKind::ShipCsv));
}

#[test]
fn select_ship_asset_picks_ship_csv() {
    let release = ReleaseResponse {
        tag_name: "e6c3".to_string(),
        assets: vec![
            ReleaseAsset {
                name: "static_data.db".to_string(),
                browser_download_url: "https://example.com/static_data.db".to_string(),
                content_type: Some("application/octet-stream".to_string()),
            },
            ReleaseAsset {
                name: "ship_data.csv".to_string(),
                browser_download_url: "https://example.com/ship_data.csv".to_string(),
                content_type: Some("text/csv".to_string()),
            },
        ],
    };

    let selected = select_ship_asset(&release).expect("ship asset should be found");
    assert_eq!(selected.kind, AssetKind::ShipCsv);
    assert!(selected.name.contains("ship_data"));
}

#[test]
fn classify_by_extension_case_insensitive() {
    assert_eq!(classify_asset(&asset("STATIC_DATA.DB", None)), Some(AssetKind::Database));
    assert_eq!(classify_asset(&asset("data.SQLite", None)), Some(AssetKind::Database));
    assert_eq!(classify_asset(&asset("bundle.Zip", None)), Some(AssetKind::Archive));
    assert_eq!(classify_asset(&asset("bundle.bin", Some("application/zip"))), Some(AssetKind::Archive));
    assert_eq!(classify_asset(&asset("notes.txt", Some("text/plain"))), None);
    assert_eq!(classify_asset(&asset("notes.txt", None)), None);
}

#[test]
fn database_wins_over_ship_data_name() {
    // A name ending in .db is a database even when it mentions ship_data.
    assert_eq!(classify_asset(&asset("ship_data.db", None)), Some(AssetKind::Database));
}

#[test]
fn dataset_asset_prefers_first_database() {
    let release = ReleaseResponse {
        tag_name: "e6c3".to_string(),
        assets: vec![
            asset("archive.zip", None),
            asset("first.db", None),
            asset("second.db", None),
        ],
    };
    let chosen = select_dataset_asset(&release).expect("database present");
    assert_eq!(chosen.kind, AssetKind::Database);
    assert_eq!(chosen.name, "first.db");
    assert_eq!(chosen.download_url, "https://example.com/first.db");
}

#[test]
fn dataset_asset_falls_back_to_last_archive() {
    let release = ReleaseResponse {
        tag_name: "e6c3".to_string(),
        assets: vec![
            asset("one.zip", None),
            asset("ship_data.csv", None),
            asset("two.zip", None),
        ],
    };
    let chosen = select_dataset_asset(&release).expect("archive present");
    assert_eq!(chosen.kind, AssetKind::Archive);
    assert_eq!(chosen.name, "two.zip");
}

#[test]
fn dataset_asset_missing() {
    let release = ReleaseResponse { tag_name: "e6c3".to_string(), assets: vec![asset("ship_data.csv", None)] };
    assert!(select_dataset_asset(&release).is_none());
    assert!(select_ship_asset(&ReleaseResponse { tag_name: "x".to_string(), assets: vec![] }).is_none());
}

#[test]
fn sanitize_replaces_unsafe_characters() {
    assert_eq!(sanitize_component("e6c3"), "e6c3");
    assert_eq!(sanitize_component("v1.0/beta 2"), "v1.0_beta_2");
    assert_eq!(sanitize_component("a:b*c?"), "a_b_c_");
    assert_eq!(sanitize_component("naïve"), "na_ve");
}

#[test]
fn cache_names_combine_tag_and_asset() {
    let release = ReleaseResponse { tag_name: "e6/c3".to_string(), assets: vec![] };
    let db = AssetInfo { name: "static data.db".to_string(), download_url: String::new(), kind: AssetKind::Database };
    assert_eq!(cache_file_name(&db, &release, Some("target.db")), "e6_c3-static_data.db");
    let archive = AssetInfo { name: "bundle.zip".to_string(), download_url: String::new(), kind: AssetKind::Archive };
    assert_eq!(cache_file_name(&archive, &release, Some("target.db")), "e6_c3-target.db");
    assert_eq!(cache_file_name(&archive, &release, None), "e6_c3-static_data.db");
    assert_eq!(target_dataset_filename(None), "static_data.db");
    assert_eq!(target_dataset_filename(Some("mine.db")), "mine.db");
}

#[test]
fn release_display_text() {
    assert_eq!(DatasetRelease::latest().to_string(), "latest");
    assert_eq!(DatasetRelease::tag("e6c3").to_string(), "tag e6c3");
}

#[test]
fn backoff_doubles_up_to_cap() {
    assert_eq!(next_backoff(300), 600);
    assert_eq!(next_backoff(600), 1200);
    assert_eq!(next_backoff(1200), 2400);
    assert_eq!(next_backoff(3000), 5000);
    assert_eq!(next_backoff(u64::MAX), 5000);
}

#[test]
fn retries_stop_after_three() {
    let mut state = RetryState::new();
    let mut delays = Vec::new();
    while let Some((delay, next)) = state.on_failure(true) {
        delays.push(delay);
        state = next;
    }
    assert_eq!(delays, vec![300, 600, 1200]);
    assert_eq!(delays.iter().sum::<u64>(), 2100);
    assert_eq!(state.attempt, HTTP_MAX_RETRIES);
}

#[test]
fn permanent_errors_are_not_retried() {
    assert!(RetryState::new().on_failure(false).is_none());
    assert!(!release_error_is_transient(Some(404)));
    assert!(!release_error_is_transient(Some(403)));
    assert!(release_error_is_transient(Some(503)));
    assert!(release_error_is_transient(None));
    assert!(download_error_is_transient(Some(500), false));
    assert!(!download_error_is_transient(Some(404), false));
    assert!(download_error_is_transient(Some(404), true));
    assert!(download_error_is_transient(None, false));
}

#[test]
fn missing_tagged_release_is_reported() {
    let tagged = DatasetRelease::tag("e9z9");
    match release_not_found(&tagged, Some(404)) {
        Some(Error::DatasetReleaseNotFound { tag }) => assert_eq!(tag, "e9z9"),
        other => panic!("unexpected {:?}", other),
    }
    assert!(release_not_found(&tagged, Some(500)).is_none());
    assert!(release_not_found(&DatasetRelease::latest(), Some(404)).is_none());
}

#[test]
fn release_tag_resolution_without_network() {
    let tagged = DatasetRelease::tag("e6c3");
    assert_eq!(resolve_release_tag_locally(&tagged, Some("other"), true), Some("e6c3".to_string()));
    let latest = DatasetRelease::latest();
    assert_eq!(resolve_release_tag_locally(&latest, Some("  e7a1 \n"), false), Some("e7a1".to_string()));
    assert_eq!(resolve_release_tag_locally(&latest, Some("   "), true), Some("latest".to_string()));
    assert_eq!(resolve_release_tag_locally(&latest, None, false), None);
}

#[test]
fn ship_cache_decisions() {
    let h = || Some("abc".to_string());
    assert_eq!(ship_cache_action(false, h(), h()), ShipCacheAction::Download);
    assert_eq!(ship_cache_action(true, h(), h()), ShipCacheAction::UseCached);
    assert_eq!(ship_cache_action(true, h(), Some("abd".to_string())), ShipCacheAction::Download);
    assert_eq!(ship_cache_action(true, h(), None), ShipCacheAction::Download);
    assert_eq!(ship_cache_action(true, None, h()), ShipCacheAction::WriteSidecar);
    assert_eq!(ship_cache_action(true, None, None), ShipCacheAction::Download);
}

#[test]
fn exhausted_state_gives_no_retry() {
    let mut s = RetryState::new();
    assert!(!s.exhausted());
    while let Some((_, next)) = s.on_failure(true) {
        s = next;
    }
    assert!(s.exhausted());
    assert_eq!(s.attempt, 3);
    assert!(s.on_failure(false).is_none());
}
