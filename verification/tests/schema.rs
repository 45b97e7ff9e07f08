use evefrontier_lib::schema::{
    detect_legacy_schema, detect_schema, detect_static_schema, jumps_query, legacy_systems_query, static_systems_query,
    SchemaVariant, TableInfo,
};
use evefrontier_lib::Error;

fn table(name: &str, columns: &[&str]) -> TableInfo {
    TableInfo { name: name.to_string(), columns: columns.iter().map(|c| c.to_string()).collect() }
}

fn static_tables() -> Vec<TableInfo> {
    vec![
        table(
            "SolarSystems",
            &["solarSystemId", "name", "constellationId", "regionId", "centerX", "centerY", "centerZ", "security"],
        ),
        table("Jumps", &["fromSystemId", "toSystemId"]),
        table("Constellations", &["constellationId", "name"]),
        table("Regions", &["regionId", "name"]),
    ]
}

#[test]
fn full_static_layout_keeps_every_part() {
    let schema = detect_schema(&static_tables()).expect("static layout");
    assert_eq!(schema.variant, SchemaVariant::StaticData);
    assert_eq!(schema.systems_table, "SolarSystems");
    assert_eq!(schema.jumps_table, "Jumps");
    assert_eq!(schema.constellation_join.map(|j| j.table), Some("Constellations"));
    assert_eq!(schema.region_join.map(|j| j.table), Some("Regions"));
    assert_eq!(schema.security_column, Some("security"));
    assert_eq!(schema.position_columns.map(|p| p.x), Some("centerX"));
    assert_eq!(schema.variant.as_str(), "static_data");
}

#[test]
fn optional_parts_drop_when_their_columns_are_missing() {
    let tables = vec![
        table("SolarSystems", &["SOLARSYSTEMID", "Name", "x", "y", "z", "regionId"]),
        table("Jumps", &["fromSystemId", "toSystemId"]),
        table("Regions", &["regionId"]),
    ];
    let schema = detect_static_schema(&tables).expect("static layout");
    assert!(schema.constellation_join.is_none());
    assert!(schema.region_join.is_none());
    assert!(schema.security_column.is_none());
    assert_eq!(schema.position_columns.map(|p| (p.x, p.y, p.z)), Some(("x", "y", "z")));
}

#[test]
fn table_names_must_match_exactly() {
    let mut tables = static_tables();
    tables[1].name = "jumps".to_string();
    assert!(detect_static_schema(&tables).is_none());
}

#[test]
fn legacy_layout_is_the_fallback() {
    let tables = vec![
        table("mapSolarSystems", &["solarSystemID", "solarSystemName"]),
        table("mapSolarSystemJumps", &["fromSolarSystemID", "toSolarSystemID"]),
    ];
    assert!(detect_static_schema(&tables).is_none());
    let schema = detect_schema(&tables).expect("legacy layout");
    assert_eq!(schema.variant, SchemaVariant::LegacyMap);
    assert_eq!(schema.systems_table, "mapSolarSystems");
    assert!(schema.position_columns.is_none());
    assert!(detect_legacy_schema(&tables).is_some());
}

#[test]
fn rejects_schema_with_missing_columns() {
    let tables = vec![
        table("SolarSystems", &["solarSystemId"]),
        table("Jumps", &["fromSystemId", "toSystemId"]),
    ];
    assert!(matches!(detect_schema(&tables), Err(Error::UnsupportedSchema)));
    assert!(matches!(detect_schema(&Vec::new()), Err(Error::UnsupportedSchema)));
}

#[test]
fn static_query_selects_every_part_of_a_full_layout() {
    let schema = detect_schema(&static_tables()).expect("static layout");
    assert_eq!(
        static_systems_query(&schema),
        "SELECT s.solarSystemId AS system_id, s.name AS system_name, s.constellationId AS constellation_id, \
         c.name AS constellation_name, s.regionId AS region_id, r.name AS region_name, s.security AS security_status, \
         s.centerX AS position_x, s.centerY AS position_y, s.centerZ AS position_z, \
         s.star_temperature AS star_temperature, s.star_luminosity AS star_luminosity FROM SolarSystems s \
         LEFT JOIN Constellations c ON c.constellationId = s.constellationId \
         LEFT JOIN Regions r ON r.regionId = s.regionId"
    );
    assert_eq!(jumps_query(&schema), "SELECT fromSystemId, toSystemId FROM Jumps");
}

#[test]
fn static_query_selects_nulls_for_missing_parts() {
    let tables = vec![table("SolarSystems", &["solarSystemId", "name"]), table("Jumps", &["fromSystemId", "toSystemId"])];
    let schema = detect_schema(&tables).expect("static layout");
    assert_eq!(
        static_systems_query(&schema),
        "SELECT s.solarSystemId AS system_id, s.name AS system_name, NULL AS constellation_id, \
         NULL AS constellation_name, NULL AS region_id, NULL AS region_name, NULL AS security_status, \
         NULL AS position_x, NULL AS position_y, NULL AS position_z, \
         s.star_temperature AS star_temperature, s.star_luminosity AS star_luminosity FROM SolarSystems s"
    );
}

#[test]
fn legacy_queries_name_the_legacy_tables() {
    let schema = SchemaVariant::LegacyMap.definition();
    assert_eq!(legacy_systems_query(&schema), "SELECT solarSystemID, solarSystemName FROM mapSolarSystems");
    assert_eq!(jumps_query(&schema), "SELECT fromSolarSystemID, toSolarSystemID FROM mapSolarSystemJumps");
}
