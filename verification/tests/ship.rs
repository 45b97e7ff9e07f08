use evefrontier_lib::ship::{normalize_header, resolve_ship_columns, ship_rows, ShipColumns};
use evefrontier_lib::Error;

fn headers(line: &str) -> Vec<String> {
    line.split(',').map(|h| h.trim().to_string()).collect()
}

#[test]
fn header_keys_keep_ascii_letters_digits_and_underscores() {
    assert_eq!(normalize_header("Capacity_m^3"), "capacity_m3");
    assert_eq!(normalize_header("SpecificHeat_C"), "specificheat_c");
    assert_eq!(normalize_header("Fuel Capacity (units)"), "fuelcapacityunits");
    assert_eq!(normalize_header("Mäss_kg"), "mss_kg");
    assert_eq!(normalize_header(""), "");
}

#[test]
fn canonical_headers_resolve_in_place() {
    let cols = resolve_ship_columns(&headers("name,base_mass_kg,specific_heat,fuel_capacity,cargo_capacity"))
        .expect("all columns present");
    assert_eq!(
        cols,
        ShipColumns { name: 0, base_mass_kg: 1, specific_heat: 2, fuel_capacity: 3, cargo_capacity: 4 }
    );
}

#[test]
fn ship_capacity_m_caret_normalizes_to_capacity_m3_and_is_accepted() {
    let csv = "name,base_mass_kg,fuel_capacity,capacity_m^3,specific_heat\nReflex,1000,500,100,1.0\n";
    let mut lines = csv.lines();
    let cols = resolve_ship_columns(&headers(lines.next().unwrap())).expect("capacity_m^3 header should be accepted");
    let row = headers(lines.next().unwrap());
    assert_eq!(cols.cargo_capacity, 3);
    assert_eq!(row[cols.cargo_capacity].parse::<f64>().unwrap(), 100.0);
}

#[test]
fn catalog_capacity_m_caret_normalizes_to_capacity_m3_and_is_accepted() {
    let csv = "name,base_mass_kg,fuel_capacity,capacity_m^3,specific_heat\nReflex,1000,500,100,1.0\n";
    let mut lines = csv.lines();
    let cols = resolve_ship_columns(&headers(lines.next().unwrap())).expect("capacity_m^3 header should be accepted");
    let row = headers(lines.next().unwrap());
    assert_eq!(row[cols.name], "Reflex");
    assert_eq!(row[cols.cargo_capacity].parse::<f64>().unwrap(), 100.0);
}

#[test]
fn ship_data_header_variants_parse() {
    let header = "Faction,ShipName,Class,StructureHP,Capacity_m3,FuelCapacity_units,Mass_kg,VolumeUnpackaged_m3,VolumePackaged_m3,InertiaModifier,ShieldRecharge_s,Capacitor_GJ,SpecificHeat_C,Conductance_k,MaxTargetRange_km,MaxLockedTargets,SignatureRadius_m,ScanResolution_mm,MaxVelocity_mps,WarpSpeed_c";
    let row = headers("Keep,Reflex,Corvette,1250,520,1750,9750000,13000,1000,0.4,240,50,2,0.875,100,5,50,500,184,1.75");
    let cols = resolve_ship_columns(&headers(header)).expect("variant header csv should parse");
    assert_eq!(
        cols,
        ShipColumns { name: 1, base_mass_kg: 6, specific_heat: 12, fuel_capacity: 5, cargo_capacity: 4 }
    );
    assert_eq!(row[cols.name], "Reflex");
}

#[test]
fn earlier_synonym_wins_over_earlier_column() {
    // `name` is tried before `ship`, so the later `Name` column is taken.
    let cols = resolve_ship_columns(&headers("Ship,Name,mass,specificheat,fuelcapacity,capacity")).expect("columns");
    assert_eq!(cols.name, 1);
    assert_eq!(cols.base_mass_kg, 2);
    assert_eq!(cols.cargo_capacity, 5);
}

#[test]
fn first_matching_header_is_taken() {
    let cols = resolve_ship_columns(&headers("name,NAME,mass,specific_heat,fuel_capacity,capacity")).expect("columns");
    assert_eq!(cols.name, 0);
}

#[test]
fn missing_columns_are_listed_in_field_order() {
    let err = resolve_ship_columns(&headers("name,cargo,fuel_capacity")).expect_err("columns missing");
    assert_eq!(err, vec!["base_mass_kg".to_string(), "specific_heat".to_string(), "cargo_capacity".to_string()]);
    let err = resolve_ship_columns(&Vec::new()).expect_err("no columns");
    assert_eq!(err.len(), 5);
    assert_eq!(err[0], "name");
}

#[test]
fn rejects_duplicate_names_case_insensitive() {
    let csv = "name,base_mass_kg,specific_heat,fuel_capacity,cargo_capacity\n".to_string()
        + "Reflex,1,1,1,1\n"
        + "reflex,2,2,2,2\n";
    let table = ship_rows(csv.as_bytes()).expect("rows");
    assert_eq!(table.rows.len(), 2);
    assert!(!table.rows[0].duplicate);
    assert!(table.rows[1].duplicate);
    assert_eq!(table.rows[1].key, "reflex");
    assert!(table.error.is_none());
}

#[test]
fn rows_hold_trimmed_fields_in_their_columns() {
    let csv = "ShipName, Mass_kg ,SpecificHeat_C,FuelCapacity_units,Capacity_m3\n  Reflex ,9750000, 2 ,1750,520\nShort,1\n";
    let table = ship_rows(csv.as_bytes()).expect("rows");
    let reflex = &table.rows[0];
    assert_eq!(reflex.name, "Reflex");
    assert_eq!(reflex.key, "reflex");
    assert_eq!(reflex.base_mass_kg.as_deref(), Some("9750000"));
    assert_eq!(reflex.specific_heat.as_deref(), Some("2"));
    assert_eq!(reflex.fuel_capacity.as_deref(), Some("1750"));
    assert_eq!(reflex.cargo_capacity.as_deref(), Some("520"));
    // A short record stops the reader; the rows before it are kept.
    assert_eq!(table.rows.len(), 1);
    assert!(table.error.is_some());
}

#[test]
fn rows_without_required_columns_are_rejected() {
    match ship_rows(b"name,mass\nReflex,1\n") {
        Err(Error::ShipDataValidation { message }) => assert_eq!(
            message,
            "ship_data.csv missing required columns: specific_heat, fuel_capacity, cargo_capacity. Available: name, mass"
        ),
        other => panic!("unexpected {:?}", other),
    }
}
